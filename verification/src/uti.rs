//! The UTI text protocol: parsing of `info key=value;...` replies from
//! engine subprocesses, extraction of the reported best move, and the
//! secondary row/column dialect with its mapping between linear cell
//! indices and board coordinates.

use vstd::prelude::*;
use vstd::string::*;

verus! {

// ---------------------------------------------------------------------
// Splitting
// ---------------------------------------------------------------------
/// The pieces of `s` between occurrences of `sep`, in order. An empty
/// input yields one empty piece, as `str::split` does.
pub open spec fn split_on(s: Seq<char>, sep: char) -> Seq<Seq<char>>
    decreases s.len(),
{
    if s.len() == 0 {
        seq![s]
    } else if s[0] == sep {
        seq![Seq::empty()] + split_on(s.subrange(1, s.len() as int), sep)
    } else {
        let rest = split_on(s.subrange(1, s.len() as int), sep);
        seq![seq![s[0]] + rest[0]] + rest.drop_first()
    }
}

/// A separator-free string is one single piece.
proof fn lemma_split_no_sep(s: Seq<char>, sep: char)
    requires
        forall|i: int| 0 <= i < s.len() ==> s[i] != sep,
    ensures
        split_on(s, sep) =~~= seq![s],
    decreases s.len(),
{
    if s.len() > 0 {
        let tail = s.subrange(1, s.len() as int);
        lemma_split_no_sep(tail, sep);
        assert(seq![s[0]] + tail =~= s);
        assert(split_on(s, sep) =~~= seq![s]);
    }
}

/// Splitting at the first separator: the piece before it, then the
/// split of what follows it.
proof fn lemma_split_first(s: Seq<char>, sep: char, k: int)
    requires
        0 <= k < s.len(),
        s[k] == sep,
        forall|i: int| 0 <= i < k ==> s[i] != sep,
    ensures
        split_on(s, sep) =~~= seq![s.subrange(0, k)] + split_on(
            s.subrange(k + 1, s.len() as int),
            sep,
        ),
    decreases k,
{
    let tail = s.subrange(1, s.len() as int);
    if k == 0 {
        assert(s.subrange(0, 0) =~= Seq::<char>::empty());
        assert(s.subrange(1, s.len() as int) =~= tail);
    } else {
        lemma_split_first(tail, sep, k - 1);
        let rest = split_on(tail, sep);
        assert(rest =~~= seq![tail.subrange(0, k - 1)] + split_on(
            tail.subrange(k, tail.len() as int),
            sep,
        ));
        assert(seq![s[0]] + tail.subrange(0, k - 1) =~= s.subrange(0, k));
        assert(tail.subrange(k, tail.len() as int) =~= s.subrange(k + 1, s.len() as int));
        assert(rest.drop_first() =~~= split_on(s.subrange(k + 1, s.len() as int), sep));
        assert(split_on(s, sep) =~~= seq![s.subrange(0, k)] + split_on(
            s.subrange(k + 1, s.len() as int),
            sep,
        ));
    }
}

/// The views of a vector of strings.
pub open spec fn views_of(v: Seq<String>) -> Seq<Seq<char>> {
    Seq::new(v.len(), |i: int| v[i]@)
}

/// Split `s` at every occurrence of `sep`.
fn split_str(s: &str, sep: char) -> (parts: Vec<String>)
    ensures
        views_of(parts@) == split_on(s@, sep),
{
    let n = s.unicode_len();
    let mut parts: Vec<String> = Vec::new();
    let mut start: usize = 0;
    let mut i: usize = 0;
    proof {
        assert(s@.subrange(0, n as int) =~= s@);
        assert(views_of(parts@) =~~= Seq::<Seq<char>>::empty());
        assert(split_on(s@, sep) =~~= views_of(parts@) + split_on(
            s@.subrange(0, n as int),
            sep,
        ));
    }
    while i < n
        invariant
            n == s@.len(),
            start <= i <= n,
            forall|j: int| start <= j < i ==> s@[j] != sep,
            split_on(s@, sep) =~~= views_of(parts@) + split_on(
                s@.subrange(start as int, n as int),
                sep,
            ),
        decreases n - i,
    {
        if s.get_char(i) == sep {
            let piece = s.substring_char(start, i);
            parts.push(String::from_str(piece));
            proof {
                let suffix = s@.subrange(start as int, n as int);
                lemma_split_first(suffix, sep, i - start);
                assert(suffix.subrange(0, i - start) =~= s@.subrange(start as int, i as int));
                assert(suffix.subrange(i - start + 1, suffix.len() as int) =~= s@.subrange(
                    i as int + 1,
                    n as int,
                ));
                assert(split_on(s@, sep) =~~= views_of(parts@) + split_on(
                    s@.subrange(i as int + 1, n as int),
                    sep,
                ));
            }
            start = i + 1;
        }
        i += 1;
    }
    let piece = s.substring_char(start, n);
    parts.push(String::from_str(piece));
    proof {
        lemma_split_no_sep(s@.subrange(start as int, n as int), sep);
        assert(views_of(parts@) =~~= split_on(s@, sep));
    }
    parts
}

/// The pieces of `s` between whitespace characters, empty pieces
/// included: splitting on whitespace itself rather than on one
/// separator character, so that spaces and tabs both separate tokens.
pub open spec fn split_on_ws(s: Seq<char>) -> Seq<Seq<char>>
    decreases s.len(),
{
    if s.len() == 0 {
        seq![s]
    } else if is_kv_space(s[0]) {
        seq![Seq::empty()] + split_on_ws(s.subrange(1, s.len() as int))
    } else {
        let rest = split_on_ws(s.subrange(1, s.len() as int));
        seq![seq![s[0]] + rest[0]] + rest.drop_first()
    }
}

/// A whitespace-free string is one single piece.
proof fn lemma_split_ws_none(s: Seq<char>)
    requires
        forall|i: int| 0 <= i < s.len() ==> !is_kv_space(#[trigger] s[i]),
    ensures
        split_on_ws(s) =~~= seq![s],
    decreases s.len(),
{
    if s.len() > 0 {
        let tail = s.subrange(1, s.len() as int);
        lemma_split_ws_none(tail);
        assert(seq![s[0]] + tail =~= s);
        assert(split_on_ws(s) =~~= seq![s]);
    }
}

/// Splitting at the first whitespace character: the piece before it,
/// then the split of what follows it.
proof fn lemma_split_ws_first(s: Seq<char>, k: int)
    requires
        0 <= k < s.len(),
        is_kv_space(s[k]),
        forall|i: int| 0 <= i < k ==> !is_kv_space(#[trigger] s[i]),
    ensures
        split_on_ws(s) =~~= seq![s.subrange(0, k)] + split_on_ws(
            s.subrange(k + 1, s.len() as int),
        ),
    decreases k,
{
    let tail = s.subrange(1, s.len() as int);
    if k == 0 {
        assert(s.subrange(0, 0) =~= Seq::<char>::empty());
        assert(s.subrange(1, s.len() as int) =~= tail);
    } else {
        lemma_split_ws_first(tail, k - 1);
        let rest = split_on_ws(tail);
        assert(rest =~~= seq![tail.subrange(0, k - 1)] + split_on_ws(
            tail.subrange(k, tail.len() as int),
        ));
        assert(seq![s[0]] + tail.subrange(0, k - 1) =~= s.subrange(0, k));
        assert(tail.subrange(k, tail.len() as int) =~= s.subrange(k + 1, s.len() as int));
        assert(rest.drop_first() =~~= split_on_ws(s.subrange(k + 1, s.len() as int)));
        assert(split_on_ws(s) =~~= seq![s.subrange(0, k)] + split_on_ws(
            s.subrange(k + 1, s.len() as int),
        ));
    }
}

/// Split `s` at every whitespace character.
fn split_ws_str(s: &str) -> (parts: Vec<String>)
    ensures
        views_of(parts@) == split_on_ws(s@),
{
    let n = s.unicode_len();
    let mut parts: Vec<String> = Vec::new();
    let mut start: usize = 0;
    let mut i: usize = 0;
    proof {
        assert(s@.subrange(0, n as int) =~= s@);
        assert(views_of(parts@) =~~= Seq::<Seq<char>>::empty());
        assert(split_on_ws(s@) =~~= views_of(parts@) + split_on_ws(s@.subrange(0, n as int)));
    }
    while i < n
        invariant
            n == s@.len(),
            start <= i <= n,
            forall|j: int| start <= j < i ==> !is_kv_space(#[trigger] s@[j]),
            split_on_ws(s@) =~~= views_of(parts@) + split_on_ws(
                s@.subrange(start as int, n as int),
            ),
        decreases n - i,
    {
        if is_space_char(s.get_char(i)) {
            let piece = s.substring_char(start, i);
            parts.push(String::from_str(piece));
            proof {
                let suffix = s@.subrange(start as int, n as int);
                lemma_split_ws_first(suffix, i - start);
                assert(suffix.subrange(0, i - start) =~= s@.subrange(start as int, i as int));
                assert(suffix.subrange(i - start + 1, suffix.len() as int) =~= s@.subrange(
                    i as int + 1,
                    n as int,
                ));
                assert(split_on_ws(s@) =~~= views_of(parts@) + split_on_ws(
                    s@.subrange(i as int + 1, n as int),
                ));
            }
            start = i + 1;
        }
        i += 1;
    }
    let piece = s.substring_char(start, n);
    parts.push(String::from_str(piece));
    proof {
        lemma_split_ws_none(s@.subrange(start as int, n as int));
        assert(views_of(parts@) =~~= split_on_ws(s@));
    }
    parts
}

// ---------------------------------------------------------------------
// Trimming
// ---------------------------------------------------------------------
/// The whitespace stripped from keys and values.
pub open spec fn is_kv_space(c: char) -> bool {
    c == ' ' || c == '\t' || c == '\n' || c == '\r'
}

/// `s` without its leading whitespace.
pub open spec fn trim_front(s: Seq<char>) -> Seq<char>
    decreases s.len(),
{
    if s.len() > 0 && is_kv_space(s[0]) {
        trim_front(s.subrange(1, s.len() as int))
    } else {
        s
    }
}

/// `s` without its trailing whitespace.
pub open spec fn trim_back(s: Seq<char>) -> Seq<char>
    decreases s.len(),
{
    if s.len() > 0 && is_kv_space(s.last()) {
        trim_back(s.drop_last())
    } else {
        s
    }
}

/// `s` without leading and trailing whitespace.
pub open spec fn trim_spec(s: Seq<char>) -> Seq<char> {
    trim_back(trim_front(s))
}

proof fn lemma_trim_front_at(s: Seq<char>, a: int)
    requires
        0 <= a <= s.len(),
        forall|i: int| 0 <= i < a ==> is_kv_space(s[i]),
        a < s.len() ==> !is_kv_space(s[a]),
    ensures
        trim_front(s) =~= s.subrange(a, s.len() as int),
    decreases a,
{
    if a == 0 {
        assert(s.subrange(0, s.len() as int) =~= s);
    } else {
        let tail = s.subrange(1, s.len() as int);
        lemma_trim_front_at(tail, a - 1);
        assert(tail.subrange(a - 1, tail.len() as int) =~= s.subrange(a, s.len() as int));
    }
}

proof fn lemma_trim_back_at(s: Seq<char>, b: int)
    requires
        0 <= b <= s.len(),
        forall|i: int| b <= i < s.len() ==> is_kv_space(s[i]),
        b > 0 ==> !is_kv_space(s[b - 1]),
    ensures
        trim_back(s) =~= s.subrange(0, b),
    decreases s.len() - b,
{
    if b == s.len() {
        if s.len() > 0 && is_kv_space(s.last()) {
            lemma_trim_back_at(s.drop_last(), b - 1);
        } else {
            assert(s.subrange(0, s.len() as int) =~= s);
        }
    } else {
        lemma_trim_back_at(s.drop_last(), b);
        assert(s.drop_last().subrange(0, b) =~= s.subrange(0, b));
    }
}

/// Whether `c` counts as whitespace for trimming.
fn is_space_char(c: char) -> (r: bool)
    ensures
        r == is_kv_space(c),
{
    c == ' ' || c == '\t' || c == '\n' || c == '\r'
}

/// Strip leading and trailing whitespace.
fn trim_str(s: &str) -> (r: String)
    ensures
        r@ == trim_spec(s@),
{
    let n = s.unicode_len();
    let mut a: usize = 0;
    while a < n && is_space_char(s.get_char(a))
        invariant
            n == s@.len(),
            a <= n,
            forall|i: int| 0 <= i < a ==> is_kv_space(s@[i]),
        decreases n - a,
    {
        a += 1;
    }
    let mut b: usize = n;
    while b > a && is_space_char(s.get_char(b - 1))
        invariant
            n == s@.len(),
            a <= b <= n,
            forall|i: int| 0 <= i < a ==> is_kv_space(s@[i]),
            a < n ==> !is_kv_space(s@[a as int]),
            forall|i: int| b <= i < n ==> is_kv_space(s@[i]),
        decreases b,
    {
        b -= 1;
    }
    let piece = s.substring_char(a, b);
    proof {
        lemma_trim_front_at(s@, a as int);
        let f = s@.subrange(a as int, n as int);
        lemma_trim_back_at(f, b - a);
        assert(f.subrange(0, b - a) =~= s@.subrange(a as int, b as int));
    }
    String::from_str(piece)
}

// ---------------------------------------------------------------------
// Key-value parsing
// ---------------------------------------------------------------------
/// The key-value pair a token contributes: its trimmed halves when it
/// splits on `=` into exactly two parts, and nothing otherwise (a
/// malformed token is skipped).
pub open spec fn pair_of(tok: Seq<char>) -> Seq<(Seq<char>, Seq<char>)> {
    let kv = split_on(tok, '=');
    if kv.len() == 2 {
        seq![(trim_spec(kv[0]), trim_spec(kv[1]))]
    } else {
        Seq::empty()
    }
}

/// The pairs contributed by a list of tokens, in order.
pub open spec fn spec_pairs(tokens: Seq<Seq<char>>) -> Seq<(Seq<char>, Seq<char>)>
    decreases tokens.len(),
{
    if tokens.len() == 0 {
        Seq::empty()
    } else {
        spec_pairs(tokens.drop_last()) + pair_of(tokens.last())
    }
}

/// The views of a vector of string pairs.
pub open spec fn pair_views(v: Seq<(String, String)>) -> Seq<(Seq<char>, Seq<char>)> {
    Seq::new(v.len(), |i: int| (v[i].0@, v[i].1@))
}

/// Parse a `key=value;key=value;...` string into its pairs, skipping
/// malformed tokens.
fn parse_keyvalue(line: &str) -> (map: Vec<(String, String)>)
    ensures
        pair_views(map@) == spec_pairs(split_on(line@, ';')),
{
    let tokens = split_str(line, ';');
    let mut map: Vec<(String, String)> = Vec::new();
    let ghost toks = views_of(tokens@);
    let mut i: usize = 0;
    while i < tokens.len()
        invariant
            toks == views_of(tokens@),
            i <= tokens@.len(),
            pair_views(map@) =~~= spec_pairs(toks.subrange(0, i as int)),
        decreases tokens@.len() - i,
    {
        let kv = split_str(tokens[i].as_str(), '=');
        proof {
            assert(views_of(kv@) == split_on(toks[i as int], '='));
        }
        if kv.len() == 2 {
            let key = trim_str(kv[0].as_str());
            let value = trim_str(kv[1].as_str());
            map.push((key, value));
        }
        proof {
            assert(toks.subrange(0, i as int + 1).drop_last() =~~= toks.subrange(0, i as int));
            assert(toks.subrange(0, i as int + 1).last() == toks[i as int]);
            assert(pair_views(map@) =~~= spec_pairs(toks.subrange(0, i as int + 1)));
        }
        i += 1;
    }
    proof {
        assert(toks.subrange(0, toks.len() as int) =~~= toks);
    }
    map
}

/// The literal prefix every info reply must carry.
pub open spec fn info_prefix() -> Seq<char> {
    seq!['i', 'n', 'f', 'o', ' ']
}

/// The error reported when the prefix is missing.
pub open spec fn parse_error_msg() -> Seq<char> {
    "expected command to start with 'info'"@
}

/// What `parse_info` returns: `None` stands for the error, otherwise
/// the key-value pairs of the remainder after the `info ` prefix, in
/// order of appearance with malformed tokens skipped.
pub open spec fn spec_parse_info(s: Seq<char>) -> Option<Seq<(Seq<char>, Seq<char>)>> {
    if s.len() < 5 || s.subrange(0, 5) != info_prefix() {
        None
    } else {
        Some(spec_pairs(split_on(s.subrange(5, s.len() as int), ';')))
    }
}

/// Parse one `info key=value;...` reply line: the line must begin with
/// the literal `info `; the remainder is split on `;` into tokens and
/// each well-formed `key=value` token contributes a pair. Malformed
/// tokens are skipped.
pub fn parse_info(line: &str) -> (r: Result<Vec<(String, String)>, String>)
    ensures
        r.is_ok() == spec_parse_info(line@).is_some(),
        r matches Ok(v) ==> Some(pair_views(v@)) == spec_parse_info(line@),
        r matches Err(e) ==> e@ == parse_error_msg(),
{
    let n = line.unicode_len();
    if n < 5 || line.get_char(0) != 'i' || line.get_char(1) != 'n' || line.get_char(2) != 'f'
        || line.get_char(3) != 'o' || line.get_char(4) != ' ' {
        proof {
            if line@.len() >= 5 {
                assert(line@.subrange(0, 5)[0] == line@[0]);
                assert(line@.subrange(0, 5) != info_prefix());
            }
        }
        return Err(String::from_str("expected command to start with 'info'"));
    }
    proof {
        assert(line@.subrange(0, 5) =~= info_prefix());
    }
    let rest = line.substring_char(5, n);
    Ok(parse_keyvalue(rest))
}

/// The error reported in strict mode for a malformed token.
pub open spec fn kv_error_msg() -> Seq<char> {
    "key-value pair format incorrect"@
}

/// What `parse_info_strict` returns: as `spec_parse_info`, except that
/// a malformed token is a violation instead of being skipped.
pub open spec fn spec_parse_info_strict(s: Seq<char>) -> Option<Seq<(Seq<char>, Seq<char>)>> {
    if s.len() < 5 || s.subrange(0, 5) != info_prefix() {
        None
    } else {
        let toks = split_on(s.subrange(5, s.len() as int), ';');
        if exists|i: int| 0 <= i < toks.len() && split_on(#[trigger] toks[i], '=').len() != 2 {
            None
        } else {
            Some(spec_pairs(toks))
        }
    }
}

/// Parse one info reply line in strict mode: the first malformed
/// `key=value` token is reported as an error instead of being skipped.
pub fn parse_info_strict(line: &str) -> (r: Result<Vec<(String, String)>, String>)
    ensures
        r.is_ok() == spec_parse_info_strict(line@).is_some(),
        r matches Ok(v) ==> Some(pair_views(v@)) == spec_parse_info_strict(line@),
        r matches Err(e) ==> (e@ == parse_error_msg() || e@ == kv_error_msg()),
        (line@.len() < 5 || line@.subrange(0, 5) != info_prefix()) ==> (r matches Err(e) && e@
            == parse_error_msg()),
{
    let n = line.unicode_len();
    if n < 5 || line.get_char(0) != 'i' || line.get_char(1) != 'n' || line.get_char(2) != 'f'
        || line.get_char(3) != 'o' || line.get_char(4) != ' ' {
        proof {
            if line@.len() >= 5 {
                assert(line@.subrange(0, 5)[0] == line@[0]);
                assert(line@.subrange(0, 5) != info_prefix());
            }
        }
        return Err(String::from_str("expected command to start with 'info'"));
    }
    proof {
        assert(line@.subrange(0, 5) =~= info_prefix());
    }
    let rest = line.substring_char(5, n);
    let tokens = split_str(rest, ';');
    let ghost toks = views_of(tokens@);
    let mut map: Vec<(String, String)> = Vec::new();
    let mut i: usize = 0;
    while i < tokens.len()
        invariant
            line@.len() >= 5,
            line@.subrange(0, 5) == info_prefix(),
            toks == split_on(line@.subrange(5, line@.len() as int), ';'),
            toks == views_of(tokens@),
            i <= tokens@.len(),
            forall|j: int| 0 <= j < i ==> split_on(#[trigger] toks[j], '=').len() == 2,
            pair_views(map@) =~~= spec_pairs(toks.subrange(0, i as int)),
        decreases tokens@.len() - i,
    {
        let kv = split_str(tokens[i].as_str(), '=');
        proof {
            assert(views_of(kv@) == split_on(toks[i as int], '='));
        }
        if kv.len() != 2 {
            proof {
                assert(split_on(toks[i as int], '=').len() != 2);
                assert(spec_parse_info_strict(line@) is None);
            }
            return Err(String::from_str("key-value pair format incorrect"));
        }
        let key = trim_str(kv[0].as_str());
        let value = trim_str(kv[1].as_str());
        map.push((key, value));
        proof {
            assert(toks.subrange(0, i as int + 1).drop_last() =~~= toks.subrange(0, i as int));
            assert(toks.subrange(0, i as int + 1).last() == toks[i as int]);
            assert(pair_views(map@) =~~= spec_pairs(toks.subrange(0, i as int + 1)));
        }
        i += 1;
    }
    proof {
        assert(toks.subrange(0, toks.len() as int) =~~= toks);
    }
    Ok(map)
}

/// The value of the last pair carrying `key`, as a later pair overrides
/// an earlier one with the same key.
pub open spec fn lookup_spec(pairs: Seq<(Seq<char>, Seq<char>)>, key: Seq<char>) -> Option<
    Seq<char>,
>
    decreases pairs.len(),
{
    if pairs.len() == 0 {
        None
    } else if pairs.last().0 == key {
        Some(pairs.last().1)
    } else {
        lookup_spec(pairs.drop_last(), key)
    }
}

/// Look a key up in a parsed reply.
pub fn info_get<'a>(pairs: &'a Vec<(String, String)>, key: &str) -> (r: Option<&'a String>)
    ensures
        match r {
            Some(v) => lookup_spec(pair_views(pairs@), key@) == Some(v@),
            None => lookup_spec(pair_views(pairs@), key@) is None,
        },
{
    let mut i: usize = pairs.len();
    proof {
        assert(pair_views(pairs@).subrange(0, pairs@.len() as int) =~= pair_views(pairs@));
    }
    while i > 0
        invariant
            i <= pairs@.len(),
            lookup_spec(pair_views(pairs@), key@) == lookup_spec(
                pair_views(pairs@).subrange(0, i as int),
                key@,
            ),
        decreases i,
    {
        i -= 1;
        if str_eq(pairs[i].0.as_str(), key) {
            proof {
                assert(pair_views(pairs@).subrange(0, i as int + 1).last() == (
                    pairs@[i as int].0@,
                    pairs@[i as int].1@,
                ));
            }
            return Some(&pairs[i].1);
        }
        proof {
            assert(pair_views(pairs@).subrange(0, i as int + 1).drop_last() =~~= pair_views(
                pairs@,
            ).subrange(0, i as int));
            assert(pair_views(pairs@).subrange(0, i as int + 1).last() == (
                pairs@[i as int].0@,
                pairs@[i as int].1@,
            ));
        }
    }
    proof {
        assert(pair_views(pairs@).subrange(0, 0) =~~= Seq::<(Seq<char>, Seq<char>)>::empty());
    }
    None
}

/// Character-for-character comparison of two strings.
fn str_eq(a: &str, b: &str) -> (r: bool)
    ensures
        r == (a@ == b@),
{
    let an = a.unicode_len();
    let bn = b.unicode_len();
    if an != bn {
        return false;
    }
    let mut i: usize = 0;
    while i < an
        invariant
            an == a@.len(),
            bn == b@.len(),
            an == bn,
            i <= an,
            forall|j: int| 0 <= j < i ==> a@[j] == b@[j],
        decreases an - i,
    {
        if a.get_char(i) != b.get_char(i) {
            return false;
        }
        i += 1;
    }
    proof {
        assert(a@ =~= b@);
    }
    true
}

/// The reply a ready engine must give to the handshake.
pub open spec fn handshake_ok_reply() -> Seq<char> {
    "utiok"@
}

/// Whether the handshake reply qualifies the engine: the host wrote
/// `uti`, and only the exact reply `utiok` counts as ready.
pub fn check_handshake(reply: &str) -> (r: bool)
    ensures
        r == (reply@ == handshake_ok_reply()),
{
    str_eq(reply, "utiok")
}

// ---------------------------------------------------------------------
// Numbers
// ---------------------------------------------------------------------
/// A decimal digit.
pub open spec fn is_digit(c: char) -> bool {
    '0' <= c && c <= '9'
}

/// The numeric value of a digit string.
pub open spec fn digits_val(s: Seq<char>) -> int
    decreases s.len(),
{
    if s.len() == 0 {
        0
    } else {
        10 * digits_val(s.drop_last()) + (s.last() as int - '0' as int)
    }
}

/// What parsing an unsigned decimal yields: the value of a nonempty
/// all-digit string that fits in a `u64`, and nothing otherwise.
pub open spec fn spec_parse_u64(s: Seq<char>) -> Option<int> {
    if s.len() > 0 && (forall|i: int| 0 <= i < s.len() ==> is_digit(s[i])) && digits_val(s)
        <= u64::MAX {
        Some(digits_val(s))
    } else {
        None
    }
}

proof fn lemma_digits_val_bounds(s: Seq<char>)
    requires
        forall|i: int| 0 <= i < s.len() ==> is_digit(s[i]),
    ensures
        digits_val(s) >= 0,
        s.len() > 0 ==> digits_val(s) >= digits_val(s.drop_last()),
    decreases s.len(),
{
    if s.len() > 0 {
        lemma_digits_val_bounds(s.drop_last());
    }
}

/// Parse a nonempty all-digit string into a `u64`, rejecting overflow.
pub fn parse_u64_str(s: &str) -> (r: Option<u64>)
    ensures
        match r {
            Some(v) => spec_parse_u64(s@) == Some(v as int),
            None => spec_parse_u64(s@) is None,
        },
{
    let n = s.unicode_len();
    if n == 0 {
        return None;
    }
    let mut acc: u64 = 0;
    let mut i: usize = 0;
    while i < n
        invariant
            n == s@.len(),
            0 < n,
            i <= n,
            forall|j: int| 0 <= j < i ==> is_digit(s@[j]),
            acc as int == digits_val(s@.subrange(0, i as int)),
        decreases n - i,
    {
        let c = s.get_char(i);
        if c < '0' || c > '9' {
            return None;
        }
        let d: u64 = (c as u32 - '0' as u32) as u64;
        proof {
            assert(s@.subrange(0, i as int + 1).drop_last() =~= s@.subrange(0, i as int));
            assert(s@.subrange(0, i as int + 1).last() == s@[i as int]);
        }
        if acc > (u64::MAX - d) / 10 {
            proof {
                lemma_digits_overflow(s@, i as int);
            }
            return None;
        }
        acc = acc * 10 + d;
        i += 1;
    }
    proof {
        assert(s@.subrange(0, n as int) =~= s@);
    }
    Some(acc)
}

/// Once a digit prefix exceeds what one more digit keeps inside `u64`,
/// the value of the whole digit string exceeds `u64::MAX`.
proof fn lemma_digits_overflow(s: Seq<char>, i: int)
    requires
        0 <= i < s.len(),
        forall|j: int| 0 <= j <= i ==> is_digit(s[j]),
        is_digit(s[i]),
        10 * digits_val(s.subrange(0, i)) + (s[i] as int - '0' as int) > u64::MAX,
    ensures
        (forall|j: int| 0 <= j < s.len() ==> is_digit(s[j])) ==> digits_val(s) > u64::MAX,
{
    if forall|j: int| 0 <= j < s.len() ==> is_digit(s[j]) {
        lemma_digits_prefix_monotone(s, i + 1);
        assert(s.subrange(0, i + 1).drop_last() =~= s.subrange(0, i));
        assert(s.subrange(0, i + 1).last() == s[i]);
    }
}

/// For an all-digit string, the value of any prefix bounds the whole.
proof fn lemma_digits_prefix_monotone(s: Seq<char>, k: int)
    requires
        0 <= k <= s.len(),
        forall|i: int| 0 <= i < s.len() ==> is_digit(s[i]),
    ensures
        digits_val(s) >= digits_val(s.subrange(0, k)),
    decreases s.len() - k,
{
    if k < s.len() {
        lemma_digits_prefix_monotone(s, k + 1);
        assert(s.subrange(0, k + 1).drop_last() =~= s.subrange(0, k));
        lemma_digits_val_bounds(s.subrange(0, k + 1));
        assert(digits_val(s.subrange(0, k + 1)) >= digits_val(s.subrange(0, k)));
    } else {
        assert(s.subrange(0, s.len() as int) =~= s);
    }
}

// ---------------------------------------------------------------------
// Interpreting replies
// ---------------------------------------------------------------------
/// The move carried by an info reply: `-2` on a parse failure, on a
/// missing `best_move` key, on a non-numeric value, or on one too large
/// to return; otherwise the reported cell.
pub open spec fn spec_reply_move(s: Seq<char>) -> int {
    match spec_parse_info(s) {
        Option::None => -2,
        Option::Some(pairs) => match lookup_spec(pairs, "best_move"@) {
            Option::None => -2,
            Option::Some(v) => match spec_parse_u64(v) {
                Option::None => -2,
                Option::Some(m) => if m > i64::MAX {
                    -2
                } else {
                    m
                },
            },
        },
    }
}

/// Extract the best move from one info reply line, mapping every
/// protocol violation to the sentinel `-2`.
pub fn interpret_info_reply(line: &str) -> (mv: i64)
    ensures
        mv as int == spec_reply_move(line@),
{
    let parsed = match parse_info(line) {
        Ok(m) => m,
        Err(_) => {
            return -2;
        },
    };
    let value = match info_get(&parsed, "best_move") {
        Some(v) => v,
        None => {
            return -2;
        },
    };
    match parse_u64_str(value.as_str()) {
        Some(m) => {
            if m > i64::MAX as u64 {
                -2
            } else {
                m as i64
            }
        },
        None => -2,
    }
}

// ---------------------------------------------------------------------
// The row/column dialect
// ---------------------------------------------------------------------
/// The board row of a cell: the sub-board row times three plus the row
/// within the sub-board.
pub open spec fn spec_row_of(cell: int) -> int {
    (cell / 9 / 3) * 3 + (cell % 9) / 3
}

/// The board column of a cell.
pub open spec fn spec_col_of(cell: int) -> int {
    ((cell / 9) % 3) * 3 + (cell % 9) % 3
}

/// The cell at a board row and column.
pub open spec fn spec_cell_index(row: int, col: int) -> int {
    ((row / 3) * 3 + col / 3) * 9 + (row % 3) * 3 + col % 3
}

/// The (row, column) coordinates of a cell.
pub fn to_coords(cell: usize) -> (rc: (usize, usize))
    requires
        cell < 81,
    ensures
        rc.0 as int == spec_row_of(cell as int),
        rc.1 as int == spec_col_of(cell as int),
        rc.0 < 9,
        rc.1 < 9,
{
    let big = cell / 9;
    let small = cell % 9;
    let row = (big / 3) * 3 + small / 3;
    let col = (big % 3) * 3 + small % 3;
    proof {
        assert(big < 9 && small < 9 && row < 9 && col < 9) by (nonlinear_arith)
            requires
                cell < 81,
                big == cell / 9,
                small == cell % 9,
                row == (big / 3) * 3 + small / 3,
                col == (big % 3) * 3 + small % 3,
        ;
    }
    (row, col)
}

/// The cell at the given coordinates: the inverse of `to_coords`.
pub fn from_coords(row: usize, col: usize) -> (cell: usize)
    requires
        row < 9,
        col < 9,
    ensures
        cell as int == spec_cell_index(row as int, col as int),
        cell < 81,
{
    let big_row = row / 3;
    let small_row = row % 3;
    let big_col = col / 3;
    let small_col = col % 3;
    let cell = (big_row * 3 + big_col) * 9 + small_row * 3 + small_col;
    proof {
        assert(cell < 81) by (nonlinear_arith)
            requires
                row < 9,
                col < 9,
                big_row == row / 3,
                small_row == row % 3,
                big_col == col / 3,
                small_col == col % 3,
                cell == (big_row * 3 + big_col) * 9 + small_row * 3 + small_col,
        ;
    }
    cell
}

/// Converting a cell to coordinates and back yields the cell, for every
/// cell of the board.
pub proof fn lemma_coords_round_trip(cell: int)
    by (nonlinear_arith)
    requires
        0 <= cell < 81,
    ensures
        spec_cell_index(spec_row_of(cell), spec_col_of(cell)) == cell,
{
}

/// The nonempty pieces of a split: the maximal runs between whitespace.
pub open spec fn filter_nonempty(ts: Seq<Seq<char>>) -> Seq<Seq<char>> {
    ts.filter(|t: Seq<char>| t.len() > 0)
}

/// The move carried by a reply in the row/column dialect: the reply,
/// split at whitespace, must hold two or three tokens, the first two
/// numeric and on the board; everything else is the protocol-violation
/// sentinel `-2`.
pub open spec fn spec_cg_move(s: Seq<char>) -> int {
    let ws = filter_nonempty(split_on_ws(s));
    if ws.len() != 2 && ws.len() != 3 {
        -2
    } else {
        match (spec_parse_u64(ws[0]), spec_parse_u64(ws[1])) {
            (Option::Some(row), Option::Some(col)) => if row <= 8 && col <= 8 {
                spec_cell_index(row, col)
            } else {
                -2
            },
            _ => -2,
        }
    }
}

/// Interpret one reply of the row/column dialect: a row and a column
/// (and optionally one more token), mapped to the linear cell index.
/// Every protocol violation yields the sentinel `-2`.
pub fn parse_cg_reply(line: &str) -> (mv: i64)
    ensures
        mv as int == spec_cg_move(line@),
{
    let parts = split_ws_str(line);
    let mut tokens: Vec<String> = Vec::new();
    let ghost all = views_of(parts@);
    let mut i: usize = 0;
    proof {
        reveal(Seq::filter);
    }
    while i < parts.len()
        invariant
            all == views_of(parts@),
            i <= parts@.len(),
            views_of(tokens@) =~~= filter_nonempty(all.subrange(0, i as int)),
        decreases parts@.len() - i,
    {
        proof {
            reveal(Seq::filter);
            assert(all.subrange(0, i as int + 1).drop_last() =~~= all.subrange(0, i as int));
            assert(all.subrange(0, i as int + 1).last() == all[i as int]);
        }
        if parts[i].as_str().unicode_len() > 0 {
            let t = parts[i].clone();
            tokens.push(t);
        }
        proof {
            assert(views_of(tokens@) =~~= filter_nonempty(all.subrange(0, i as int + 1)));
        }
        i += 1;
    }
    proof {
        reveal(Seq::filter);
        assert(all.subrange(0, all.len() as int) =~~= all);
    }
    if tokens.len() != 2 && tokens.len() != 3 {
        return -2;
    }
    let row = match parse_u64_str(tokens[0].as_str()) {
        Some(r) => r,
        None => {
            return -2;
        },
    };
    let col = match parse_u64_str(tokens[1].as_str()) {
        Some(c) => c,
        None => {
            return -2;
        },
    };
    if row > 8 || col > 8 {
        return -2;
    }
    let cell = from_coords(row as usize, col as usize);
    cell as i64
}

} // verus!
