//! Cookie text handling: reading `name=value` pairs out of pasted `Cookie:`
//! or `Set-Cookie:` text, merging them into a saved cookie header, and
//! masking a cookie for display.

use vstd::prelude::*;

use crate::text::{
    ascii_lower, ascii_lower_chars, chars_eq, chars_of, copy_range, find_char, first_index,
    has_prefix, is_ws, join, lacks, lemma_first_index_after, lemma_first_index_some,
    lemma_join_ends, lemma_join_lacks, lemma_split_append, lemma_split_pieces_lack,
    lemma_split_whole, lemma_trim_fixed, lemma_trim_lacks, lemma_trim_space_before,
    lemma_trimmed_ends, split_chars, split_on, starts_with_chars, string_from_chars, trim,
    trim_bounds, trim_chars, views,
};

verus! {

/// A cookie as a (name, value) pair of character sequences.
pub type CookiePair = (Seq<char>, Seq<char>);

/// The views of a sequence of `(String, String)` pairs.
pub open spec fn string_pairs(v: Seq<(String, String)>) -> Seq<CookiePair> {
    v.map_values(|p: (String, String)| (p.0@, p.1@))
}

/// The names that describe a `Set-Cookie` attribute rather than a cookie,
/// in lowercase.
pub open spec fn cookie_attribute(name: Seq<char>) -> bool {
    ||| name == "expires"@
    ||| name == "max-age"@
    ||| name == "domain"@
    ||| name == "path"@
    ||| name == "secure"@
    ||| name == "httponly"@
    ||| name == "samesite"@
    ||| name == "priority"@
    ||| name == "partitioned"@
}

/// The cookie text of `value` without its surrounding whitespace and
/// without one leading `Cookie:`, `cookie:`, `Set-Cookie:` or `set-cookie:`
/// (tried in that order), trimmed again when such a prefix was removed.
pub open spec fn strip_prefix_spec(value: Seq<char>) -> Seq<char> {
    let t = trim(value);
    if has_prefix(t, "Cookie:"@) {
        trim(t.skip("Cookie:"@.len() as int))
    } else if has_prefix(t, "cookie:"@) {
        trim(t.skip("cookie:"@.len() as int))
    } else if has_prefix(t, "Set-Cookie:"@) {
        trim(t.skip("Set-Cookie:"@.len() as int))
    } else if has_prefix(t, "set-cookie:"@) {
        trim(t.skip("set-cookie:"@.len() as int))
    } else {
        t
    }
}

/// The cookie that one `;`-separated segment holds: the trimmed text before
/// the first `=` is the name, the trimmed text after it the value; a segment
/// without `=`, with an attribute name or with an empty value holds none.
pub open spec fn segment_pair(seg: Seq<char>) -> Option<CookiePair> {
    let part = trim(seg);
    match first_index(part, '=') {
        None => None,
        Some(k) => {
            let name = trim(part.take(k));
            let value = trim(part.skip(k + 1));
            if cookie_attribute(ascii_lower(name)) || value.len() == 0 {
                None
            } else {
                Some((name, value))
            }
        },
    }
}

/// The cookies of a sequence of segments, in order.
pub open spec fn segments_pairs(segs: Seq<Seq<char>>) -> Seq<CookiePair>
    decreases segs.len(),
{
    if segs.len() == 0 {
        Seq::empty()
    } else {
        let init = segments_pairs(segs.drop_last());
        match segment_pair(segs.last()) {
            Some(p) => init.push(p),
            None => init,
        }
    }
}

/// The cookies of one line: nothing for a blank line, else those of the
/// `;`-separated segments of the line with its prefix stripped.
pub open spec fn line_pairs(line: Seq<char>) -> Seq<CookiePair> {
    let t = trim(line);
    if t.len() == 0 {
        Seq::empty()
    } else {
        segments_pairs(split_on(strip_prefix_spec(t), ';'))
    }
}

/// The cookies of a sequence of lines, in order.
pub open spec fn lines_pairs(lines: Seq<Seq<char>>) -> Seq<CookiePair>
    decreases lines.len(),
{
    if lines.len() == 0 {
        Seq::empty()
    } else {
        lines_pairs(lines.drop_last()) + line_pairs(lines.last())
    }
}

/// Whether some pair's name has the lowercase form `key`.
pub open spec fn has_name(pairs: Seq<CookiePair>, key: Seq<char>) -> bool {
    exists|i: int| 0 <= i < pairs.len() && ascii_lower(#[trigger] pairs[i].0) == key
}

/// The pairs with every pair dropped whose name (compared in ASCII
/// lowercase) occurred earlier: the first occurrence wins.
pub open spec fn first_by_name(pairs: Seq<CookiePair>) -> Seq<CookiePair>
    decreases pairs.len(),
{
    if pairs.len() == 0 {
        Seq::empty()
    } else {
        let d = first_by_name(pairs.drop_last());
        if has_name(d, ascii_lower(pairs.last().0)) {
            d
        } else {
            d.push(pairs.last())
        }
    }
}

/// The cookies that `value` holds: the pairs of its lines (split at `\n`)
/// in order, the first of each name kept.
pub open spec fn cookie_pairs(value: Seq<char>) -> Seq<CookiePair> {
    first_by_name(lines_pairs(split_on(value, '\n')))
}

/// The index of the first pair whose name has the lowercase form `key`.
pub open spec fn find_name(pairs: Seq<CookiePair>, key: Seq<char>) -> Option<int>
    decreases pairs.len(),
{
    if pairs.len() == 0 {
        None
    } else {
        match find_name(pairs.drop_last(), key) {
            Some(i) => Some(i),
            None => if ascii_lower(pairs.last().0) == key {
                Some(pairs.len() - 1)
            } else {
                None
            },
        }
    }
}

/// `base` with each incoming pair applied in order: a pair whose name is
/// present replaces that cookie's value (the name keeps its spelling), any
/// other pair is appended.
pub open spec fn merge_pairs(base: Seq<CookiePair>, incoming: Seq<CookiePair>) -> Seq<CookiePair>
    decreases incoming.len(),
{
    if incoming.len() == 0 {
        base
    } else {
        let m = merge_pairs(base, incoming.drop_last());
        let p = incoming.last();
        match find_name(m, ascii_lower(p.0)) {
            Some(i) => m.update(i, (m[i].0, p.1)),
            None => m.push(p),
        }
    }
}

/// `name=value`.
pub open spec fn pair_text(p: CookiePair) -> Seq<char> {
    p.0 + seq!['='] + p.1
}

/// The pairs as a `Cookie` header: `name=value` texts joined by `"; "`.
pub open spec fn header_text(pairs: Seq<CookiePair>) -> Seq<char> {
    join(pairs.map_values(|p: CookiePair| pair_text(p)), seq![';', ' '])
}

/// The cookie header that results from merging the cookies of `value`
/// into those of `existing`; empty when `value` holds no cookie.
pub open spec fn normalized_cookie(value: Seq<char>, existing: Seq<char>) -> Seq<char> {
    let incoming = cookie_pairs(value);
    if incoming.len() == 0 {
        Seq::empty()
    } else {
        header_text(merge_pairs(cookie_pairs(existing), incoming))
    }
}

/// The text of an optional existing cookie, empty when there is none.
pub open spec fn existing_text(existing: Option<&str>) -> Seq<char> {
    match existing {
        Some(s) => s@,
        None => Seq::empty(),
    }
}

/// A masked preview of a cookie: `<set>` for at most 16 characters, else the
/// first and last eight characters around `...`.
pub open spec fn masked(cookie: Seq<char>) -> Seq<char> {
    let t = trim(cookie);
    if t.len() <= 16 {
        "<set>"@
    } else {
        t.take(8) + seq!['.', '.', '.'] + t.skip(t.len() - 8)
    }
}

/// No two pairs have the same name in ASCII lowercase.
pub open spec fn unique_names(pairs: Seq<CookiePair>) -> bool {
    forall|i: int, j: int|
        0 <= i < j < pairs.len() ==> ascii_lower(#[trigger] pairs[i].0) != ascii_lower(
            #[trigger] pairs[j].0,
        )
}

/// Whether `name` names a cookie attribute such as `expires` or `path`
/// (compared exactly; callers pass a lowercase name).
pub fn is_cookie_attribute(name: &str) -> (res: bool)
    ensures
        res == cookie_attribute(name@),
{
    let v = chars_of(name);
    is_attribute_chars(&v)
}

fn is_attribute_chars(v: &[char]) -> (res: bool)
    ensures
        res == cookie_attribute(v@),
{
    chars_eq(v, &chars_of("expires")) || chars_eq(v, &chars_of("max-age")) || chars_eq(
        v,
        &chars_of("domain"),
    ) || chars_eq(v, &chars_of("path")) || chars_eq(v, &chars_of("secure")) || chars_eq(
        v,
        &chars_of("httponly"),
    ) || chars_eq(v, &chars_of("samesite")) || chars_eq(v, &chars_of("priority")) || chars_eq(
        v,
        &chars_of("partitioned"),
    )
}

/// The bounds, in `v`, of `strip_prefix_spec(v)`.
fn strip_prefix_bounds(v: &[char]) -> (res: (usize, usize))
    ensures
        res.0 <= res.1 <= v@.len(),
        v@.subrange(res.0 as int, res.1 as int) == strip_prefix_spec(v@),
{
    let (a, b) = trim_bounds(v);
    let t = copy_range(v, a, b);
    let prefixes = [
        chars_of("Cookie:"),
        chars_of("cookie:"),
        chars_of("Set-Cookie:"),
        chars_of("set-cookie:"),
    ];
    let mut k: usize = 0;
    while k < 4
        invariant
            k <= 4,
            t@ == trim(v@),
            t@ == v@.subrange(a as int, b as int),
            a <= b <= v@.len(),
            prefixes@.len() == 4,
            prefixes@[0]@ == "Cookie:"@,
            prefixes@[1]@ == "cookie:"@,
            prefixes@[2]@ == "Set-Cookie:"@,
            prefixes@[3]@ == "set-cookie:"@,
            forall|q: int| 0 <= q < k ==> !has_prefix(t@, #[trigger] prefixes@[q]@),
        decreases 4 - k,
    {
        let p = &prefixes[k];
        if starts_with_chars(&t, p) {
            let rest = copy_range(&t, p.len(), t.len());
            let (a2, b2) = trim_bounds(&rest);
            proof {
                assert(rest@ == t@.skip(p@.len() as int));
                assert(v@.subrange(a + p@.len() + a2, a + p@.len() + b2) =~= rest@.subrange(
                    a2 as int,
                    b2 as int,
                ));
                assert(p@ == prefixes@[k as int]@);
            }
            return (a + p.len() + a2, a + p.len() + b2);
        }
        k = k + 1;
    }
    (a, b)
}

/// `value` trimmed, and without a leading `Cookie:`/`cookie:`/`Set-Cookie:`/
/// `set-cookie:` prefix (the rest trimmed again).
pub fn strip_cookie_prefix(value: &str) -> (res: &str)
    ensures
        res@ == strip_prefix_spec(value@),
{
    let v = chars_of(value);
    let (a, b) = strip_prefix_bounds(&v);
    value.substring_char(a, b)
}

/// The pair that one segment holds, if any.
fn segment_pair_exec(seg: &[char]) -> (res: Option<(Vec<char>, Vec<char>)>)
    ensures
        match res {
            Some(p) => segment_pair(seg@) == Some((p.0@, p.1@)),
            None => segment_pair(seg@) == None::<CookiePair>,
        },
{
    let part = trim_chars(seg);
    match find_char(&part, '=') {
        None => None,
        Some(k) => {
            assert(k < part@.len());
            let name = trim_chars(&copy_range(&part, 0, k));
            let plen = part.len();
            let value = trim_chars(&copy_range(&part, k + 1, plen));
            proof {
                assert(part@.subrange(0, k as int) =~= part@.take(k as int));
                assert(part@.subrange(k + 1, part@.len() as int) =~= part@.skip(k + 1));
            }
            let lowered = ascii_lower_chars(&name);
            if is_attribute_chars(&lowered) || value.len() == 0 {
                None
            } else {
                Some((name, value))
            }
        },
    }
}

/// The views of internal pairs.
pub open spec fn char_pairs(v: Seq<(Vec<char>, Vec<char>)>) -> Seq<CookiePair> {
    v.map_values(|p: (Vec<char>, Vec<char>)| (p.0@, p.1@))
}

/// Whether some key equals `key`.
fn contains_key(keys: &Vec<Vec<char>>, key: &[char]) -> (res: bool)
    ensures
        res == exists|i: int| 0 <= i < keys@.len() && (#[trigger] keys@[i])@ == key@,
{
    let n = keys.len();
    let mut i: usize = 0;
    while i < n
        invariant
            i <= n == keys@.len(),
            forall|j: int| 0 <= j < i ==> (#[trigger] keys@[j])@ != key@,
        decreases n - i,
    {
        if chars_eq(&keys[i], key) {
            return true;
        }
        i = i + 1;
    }
    false
}

/// The cookies of `value`, as character vectors.
fn cookie_pairs_chars(value: &[char]) -> (res: Vec<(Vec<char>, Vec<char>)>)
    ensures
        char_pairs(res@) == cookie_pairs(value@),
{
    let lines = split_chars(value, '\n');
    let ghost lines_v = views(lines@);
    let mut parsed: Vec<(Vec<char>, Vec<char>)> = Vec::new();
    let mut seen: Vec<Vec<char>> = Vec::new();
    let ghost mut cands: Seq<CookiePair> = Seq::empty();
    let nl = lines.len();
    let mut li: usize = 0;
    assert(lines_v.take(0) =~= Seq::<Seq<char>>::empty());
    while li < nl
        invariant
            li <= nl == lines@.len(),
            lines_v == views(lines@),
            lines_v == split_on(value@, '\n'),
            cands == lines_pairs(lines_v.take(li as int)),
            char_pairs(parsed@) == first_by_name(cands),
            seen@.len() == parsed@.len(),
            forall|j: int|
                0 <= j < seen@.len() ==> (#[trigger] seen@[j])@ == ascii_lower(parsed@[j].0@),
        decreases nl - li,
    {
        let line = &lines[li];
        assert(line@ == lines_v[li as int]);
        assert(lines_v.take(li + 1).drop_last() =~= lines_v.take(li as int));
        let t = trim_chars(line);
        if t.len() != 0 {
            let (a, b) = strip_prefix_bounds(&t);
            let stripped = copy_range(&t, a, b);
            let segs = split_chars(&stripped, ';');
            let ghost segs_v = views(segs@);
            let ghost base = cands;
            let ns = segs.len();
            let mut si: usize = 0;
            assert(segs_v.take(0) =~= Seq::<Seq<char>>::empty());
            assert(base + segments_pairs(segs_v.take(0)) =~= base);
            while si < ns
                invariant
                    si <= ns == segs@.len(),
                    segs_v == views(segs@),
                    cands == base + segments_pairs(segs_v.take(si as int)),
                    char_pairs(parsed@) == first_by_name(cands),
                    seen@.len() == parsed@.len(),
                    forall|j: int|
                        0 <= j < seen@.len() ==> (#[trigger] seen@[j])@ == ascii_lower(
                            parsed@[j].0@,
                        ),
                decreases ns - si,
            {
                let seg = &segs[si];
                assert(seg@ == segs_v[si as int]);
                assert(segs_v.take(si + 1).drop_last() =~= segs_v.take(si as int));
                match segment_pair_exec(seg) {
                    None => {
                        assert(cands == base + segments_pairs(segs_v.take(si + 1)));
                    },
                    Some(p) => {
                        let ghost pv = (p.0@, p.1@);
                        let ghost old_cands = cands;
                        let ghost d = first_by_name(old_cands);
                        proof {
                            cands = old_cands.push(pv);
                            assert(base + segments_pairs(segs_v.take(si + 1)) =~= cands);
                            assert(cands.drop_last() =~= old_cands);
                        }
                        let lowered = ascii_lower_chars(&p.0);
                        let found = contains_key(&seen, &lowered);
                        proof {
                            if found {
                                let i = choose|i: int|
                                    0 <= i < seen@.len() && (#[trigger] seen@[i])@ == lowered@;
                                assert(d[i] == char_pairs(parsed@)[i]);
                                assert(seen@[i]@ == ascii_lower(parsed@[i].0@));
                                assert(ascii_lower(d[i].0) == lowered@);
                                assert(has_name(d, lowered@));
                            } else {
                                assert forall|i: int| 0 <= i < d.len() implies ascii_lower(
                                    #[trigger] d[i].0,
                                ) != lowered@ by {
                                    assert(d[i] == char_pairs(parsed@)[i]);
                                    assert(seen@[i]@ == ascii_lower(parsed@[i].0@));
                                }
                            }
                        }
                        if !found {
                            seen.push(lowered);
                            parsed.push(p);
                            assert(char_pairs(parsed@) =~= d.push(pv));
                        }
                    },
                }
                si = si + 1;
            }
            proof {
                assert(segs_v.take(ns as int) =~= segs_v);
                assert(strip_prefix_spec(t@) == stripped@);
                assert(line_pairs(line@) == segments_pairs(segs_v));
                assert(cands =~= lines_pairs(lines_v.take(li + 1)));
            }
        } else {
            assert(line_pairs(line@) =~= Seq::<CookiePair>::empty());
            assert(lines_pairs(lines_v.take(li + 1)) =~= cands);
        }
        li = li + 1;
    }
    assert(lines_v.take(nl as int) =~= lines_v);
    parsed
}

/// Converts internal pairs to pairs of strings.
fn to_string_pairs(pairs: &Vec<(Vec<char>, Vec<char>)>) -> (res: Vec<(String, String)>)
    ensures
        string_pairs(res@) == char_pairs(pairs@),
{
    let mut out: Vec<(String, String)> = Vec::new();
    let n = pairs.len();
    let mut i: usize = 0;
    while i < n
        invariant
            i <= n == pairs@.len(),
            out@.len() == i,
            string_pairs(out@) =~= char_pairs(pairs@.take(i as int)),
        decreases n - i,
    {
        let name = string_from_chars(&pairs[i].0);
        let value = string_from_chars(&pairs[i].1);
        let ghost before = out@;
        out.push((name, value));
        assert(out@[i as int].0@ == pairs@[i as int].0@);
        assert(out@[i as int].1@ == pairs@[i as int].1@);
        i = i + 1;
        assert forall|j: int| 0 <= j < i implies #[trigger] string_pairs(out@)[j] == char_pairs(
            pairs@.take(i as int),
        )[j] by {
            if j < i - 1 {
                assert(out@[j] == before[j]);
                assert(string_pairs(before)[j] == char_pairs(pairs@.take(i - 1))[j]);
            }
        }
        assert(string_pairs(out@) =~= char_pairs(pairs@.take(i as int)));
    }
    assert(pairs@.take(n as int) =~= pairs@);
    out
}

/// The cookies that `value` holds, in order, the first of each name
/// (compared in ASCII lowercase) kept; attribute names such as `expires`
/// and pairs with an empty value are left out.
pub fn parse_cookie_pairs(value: &str) -> (res: Vec<(String, String)>)
    ensures
        string_pairs(res@) == cookie_pairs(value@),
{
    let v = chars_of(value);
    let pairs = cookie_pairs_chars(&v);
    to_string_pairs(&pairs)
}

proof fn lemma_find_name_none(pairs: Seq<CookiePair>, key: Seq<char>)
    requires
        find_name(pairs, key) == None::<int>,
    ensures
        !has_name(pairs, key),
    decreases pairs.len(),
{
    if pairs.len() > 0 {
        lemma_find_name_none(pairs.drop_last(), key);
        assert forall|i: int| 0 <= i < pairs.len() implies ascii_lower(#[trigger] pairs[i].0)
            != key by {
            if i < pairs.len() - 1 {
                assert(pairs.drop_last()[i] == pairs[i]);
            }
        }
    }
}

proof fn lemma_find_name_some(pairs: Seq<CookiePair>, key: Seq<char>)
    ensures
        find_name(pairs, key) matches Some(i) ==> 0 <= i < pairs.len() && ascii_lower(pairs[i].0)
            == key && forall|j: int| 0 <= j < i ==> ascii_lower(#[trigger] pairs[j].0) != key,
        find_name(pairs, key) is None ==> forall|j: int|
            0 <= j < pairs.len() ==> ascii_lower(#[trigger] pairs[j].0) != key,
    decreases pairs.len(),
{
    if pairs.len() > 0 {
        lemma_find_name_some(pairs.drop_last(), key);
        assert forall|j: int| 0 <= j < pairs.len() - 1 implies pairs.drop_last()[j] == pairs[j] by {}
    }
}

/// The first index whose name has the lowercase form `key`.
fn find_key(keys: &Vec<Vec<char>>, key: &[char]) -> (res: Option<usize>)
    ensures
        match res {
            Some(i) => i < keys@.len() && keys@[i as int]@ == key@ && forall|j: int|
                0 <= j < i ==> (#[trigger] keys@[j])@ != key@,
            None => forall|j: int| 0 <= j < keys@.len() ==> (#[trigger] keys@[j])@ != key@,
        },
{
    let n = keys.len();
    let mut i: usize = 0;
    while i < n
        invariant
            i <= n == keys@.len(),
            forall|j: int| 0 <= j < i ==> (#[trigger] keys@[j])@ != key@,
        decreases n - i,
    {
        if chars_eq(&keys[i], key) {
            return Some(i);
        }
        i = i + 1;
    }
    None
}

/// The views of parallel name/value vectors as pairs.
pub open spec fn zipped(names: Seq<Vec<char>>, values: Seq<Vec<char>>) -> Seq<CookiePair> {
    Seq::new(names.len(), |i: int| (names[i]@, values[i]@))
}

/// The `Cookie` header text of the pairs.
fn header_chars(names: &Vec<Vec<char>>, values: &Vec<Vec<char>>) -> (res: Vec<char>)
    requires
        names@.len() == values@.len(),
    ensures
        res@ == header_text(zipped(names@, values@)),
{
    let ghost pairs = zipped(names@, values@);
    let ghost texts = pairs.map_values(|p: CookiePair| pair_text(p));
    let mut out: Vec<char> = Vec::new();
    let n = names.len();
    let mut i: usize = 0;
    assert(texts.take(0) =~= Seq::<Seq<char>>::empty());
    while i < n
        invariant
            i <= n == names@.len() == values@.len(),
            pairs == zipped(names@, values@),
            texts == pairs.map_values(|p: CookiePair| pair_text(p)),
            out@ == join(texts.take(i as int), seq![';', ' ']),
        decreases n - i,
    {
        let ghost prev = out@;
        if i > 0 {
            out.push(';');
            out.push(' ');
        }
        let mut k: usize = 0;
        let ghost mid = out@;
        while k < names[i].len()
            invariant
                i < n == names@.len() == values@.len(),
                k <= names@[i as int]@.len(),
                out@ == mid + names@[i as int]@.take(k as int),
            decreases names@[i as int]@.len() - k,
        {
            out.push(names[i][k]);
            k = k + 1;
            assert(out@ =~= mid + names@[i as int]@.take(k as int));
        }
        out.push('=');
        let ghost mid2 = out@;
        let mut k: usize = 0;
        while k < values[i].len()
            invariant
                i < n == names@.len() == values@.len(),
                k <= values@[i as int]@.len(),
                out@ == mid2 + values@[i as int]@.take(k as int),
            decreases values@[i as int]@.len() - k,
        {
            out.push(values[i][k]);
            k = k + 1;
            assert(out@ =~= mid2 + values@[i as int]@.take(k as int));
        }
        proof {
            assert(names@[i as int]@.take(names@[i as int]@.len() as int) =~= names@[i as int]@);
            assert(values@[i as int]@.take(values@[i as int]@.len() as int)
                =~= values@[i as int]@);
            assert(texts[i as int] == pair_text(pairs[i as int]));
            assert(texts.take(i + 1).drop_last() =~= texts.take(i as int));
            if i == 0 {
                assert(out@ =~= texts[0]);
            } else {
                assert(out@ =~= prev + seq![';', ' '] + texts[i as int]);
            }
        }
        i = i + 1;
    }
    assert(texts.take(n as int) =~= texts);
    out
}

/// Merges the cookies of `value` into those of `existing_cookie`: a cookie
/// of the same name (ASCII case-insensitive) takes the new value in its old
/// place, a new cookie is appended; the result is the `Cookie` header text
/// (`name=value` joined by `"; "`), or empty when `value` holds no cookie.
pub fn normalize_cookie_input(value: &str, existing_cookie: Option<&str>) -> (res: String)
    ensures
        res@ == normalized_cookie(value@, existing_text(existing_cookie)),
{
    let existing_chars = match existing_cookie {
        Some(s) => chars_of(s),
        None => Vec::new(),
    };
    assert(existing_chars@ == existing_text(existing_cookie));
    let base = cookie_pairs_chars(&existing_chars);
    let incoming = cookie_pairs_chars(&chars_of(value));
    if incoming.len() == 0 {
        return String::new();
    }
    let mut names: Vec<Vec<char>> = Vec::new();
    let mut values: Vec<Vec<char>> = Vec::new();
    let mut keys: Vec<Vec<char>> = Vec::new();
    let nb = base.len();
    let mut i: usize = 0;
    while i < nb
        invariant
            i <= nb == base@.len(),
            names@.len() == i && values@.len() == i && keys@.len() == i,
            zipped(names@, values@) =~= char_pairs(base@).take(i as int),
            forall|j: int| 0 <= j < i ==> (#[trigger] keys@[j])@ == ascii_lower(names@[j]@),
        decreases nb - i,
    {
        let n = copy_range(&base[i].0, 0, base[i].0.len());
        let v = copy_range(&base[i].1, 0, base[i].1.len());
        proof {
            assert(base@[i as int].0@.subrange(0, base@[i as int].0@.len() as int)
                =~= base@[i as int].0@);
            assert(base@[i as int].1@.subrange(0, base@[i as int].1@.len() as int)
                =~= base@[i as int].1@);
        }
        keys.push(ascii_lower_chars(&n));
        names.push(n);
        values.push(v);
        i = i + 1;
        assert(zipped(names@, values@) =~= char_pairs(base@).take(i as int));
    }
    assert(char_pairs(base@).take(nb as int) =~= char_pairs(base@));
    let ghost base_v = char_pairs(base@);
    let ghost inc_v = char_pairs(incoming@);
    let ni = incoming.len();
    let mut k: usize = 0;
    assert(inc_v.take(0) =~= Seq::<CookiePair>::empty());
    while k < ni
        invariant
            k <= ni == incoming@.len(),
            inc_v == char_pairs(incoming@),
            names@.len() == values@.len() == keys@.len(),
            zipped(names@, values@) == merge_pairs(base_v, inc_v.take(k as int)),
            forall|j: int|
                0 <= j < keys@.len() ==> (#[trigger] keys@[j])@ == ascii_lower(names@[j]@),
        decreases ni - k,
    {
        let ghost m = zipped(names@, values@);
        assert(inc_v.take(k + 1).drop_last() =~= inc_v.take(k as int));
        assert(inc_v.take(k + 1).last() == inc_v[k as int]);
        let lowered = ascii_lower_chars(&incoming[k].0);
        let v = copy_range(&incoming[k].1, 0, incoming[k].1.len());
        assert(incoming@[k as int].1@.subrange(0, incoming@[k as int].1@.len() as int)
            =~= incoming@[k as int].1@);
        proof {
            lemma_find_name_some(m, lowered@);
        }
        match find_key(&keys, &lowered) {
            Some(idx) => {
                proof {
                    assert(m[idx as int].0 == names@[idx as int]@);
                    match find_name(m, lowered@) {
                        Some(f) => {
                            if f < idx {
                                assert(keys@[f]@ == ascii_lower(names@[f]@));
                            } else if f > idx {
                                assert(keys@[idx as int]@ == ascii_lower(m[idx as int].0));
                            }
                        },
                        None => {
                            assert(keys@[idx as int]@ == ascii_lower(m[idx as int].0));
                        },
                    }
                }
                values.set(idx, v);
                assert(zipped(names@, values@) =~= m.update(idx as int, (m[idx as int].0, inc_v[k as int].1)));
            },
            None => {
                proof {
                    match find_name(m, lowered@) {
                        Some(f) => {
                            assert(keys@[f]@ == ascii_lower(names@[f]@));
                        },
                        None => {},
                    }
                }
                let n = copy_range(&incoming[k].0, 0, incoming[k].0.len());
                assert(incoming@[k as int].0@.subrange(0, incoming@[k as int].0@.len() as int)
                    =~= incoming@[k as int].0@);
                names.push(n);
                values.push(v);
                keys.push(lowered);
                assert(zipped(names@, values@) =~= m.push(inc_v[k as int]));
            },
        }
        k = k + 1;
    }
    assert(inc_v.take(ni as int) =~= inc_v);
    let out = header_chars(&names, &values);
    string_from_chars(&out)
}

/// A masked preview of a cookie for display.
pub fn mask_cookie(cookie: &str) -> (res: String)
    ensures
        res@ == masked(cookie@),
        trim(cookie@).len() > 16 ==> res@.len() == 19,
{
    let t = trim_chars(&chars_of(cookie));
    let n = t.len();
    if n <= 16 {
        return "<set>".to_owned();
    }
    let mut out = copy_range(&t, 0, 8);
    out.push('.');
    out.push('.');
    out.push('.');
    let end = copy_range(&t, n - 8, n);
    let mut i: usize = 0;
    let ghost mid = out@;
    while i < 8
        invariant
            i <= 8,
            end@.len() == 8,
            out@ == mid + end@.take(i as int),
        decreases 8 - i,
    {
        out.push(end[i]);
        i = i + 1;
        assert(out@ =~= mid + end@.take(i as int));
    }
    assert(out@ =~= t@.take(8) + seq!['.', '.', '.'] + t@.skip(n - 8));
    string_from_chars(&out)
}


proof fn lemma_first_by_name(pairs: Seq<CookiePair>)
    ensures
        unique_names(first_by_name(pairs)),
        forall|i: int|
            0 <= i < first_by_name(pairs).len() ==> exists|j: int|
                0 <= j < pairs.len() && #[trigger] first_by_name(pairs)[i] == pairs[j],
        forall|j: int|
            0 <= j < pairs.len() ==> has_name(first_by_name(pairs), ascii_lower(#[trigger] pairs[j].0)),
    decreases pairs.len(),
{
    if pairs.len() > 0 {
        let init = pairs.drop_last();
        lemma_first_by_name(init);
        let d = first_by_name(init);
        let p = pairs.last();
        let r = first_by_name(pairs);
        assert forall|i: int| 0 <= i < r.len() implies exists|j: int|
            0 <= j < pairs.len() && #[trigger] r[i] == pairs[j] by {
            if i < d.len() {
                let j = choose|j: int| 0 <= j < init.len() && d[i] == init[j];
                assert(pairs[j] == init[j]);
            } else {
                assert(r[i] == pairs[pairs.len() - 1]);
            }
        }
        assert forall|j: int| 0 <= j < pairs.len() implies has_name(r, ascii_lower(
            #[trigger] pairs[j].0,
        )) by {
            if j < pairs.len() - 1 {
                assert(pairs[j] == init[j]);
                assert(has_name(d, ascii_lower(init[j].0)));
                let k = choose|k: int| 0 <= k < d.len() && ascii_lower(#[trigger] d[k].0)
                    == ascii_lower(init[j].0);
                assert(r[k] == d[k]);
            } else if !has_name(d, ascii_lower(p.0)) {
                assert(r[d.len() as int] == p);
            }
        }
    }
}

/// Law: the cookies read from any text have pairwise different names
/// (compared in ASCII lowercase).
pub proof fn law_cookie_names_unique(value: Seq<char>)
    ensures
        unique_names(cookie_pairs(value)),
{
    lemma_first_by_name(lines_pairs(split_on(value, '\n')));
}

proof fn lemma_trim_idempotent_seg(seg: Seq<char>)
    ensures
        segment_pair(seg) matches Some(p) ==> p.0 == trim(p.0) && p.1 == trim(p.1),
{
    let part = trim(seg);
    match first_index(part, '=') {
        None => {},
        Some(k) => {
            crate::text::lemma_trim_idempotent(part.take(k));
            crate::text::lemma_trim_idempotent(part.skip(k + 1));
        },
    }
}

/// Law (merging): applying incoming cookies to a header with distinct names
/// keeps the names distinct, keeps every existing cookie in its place with its
/// spelling, leaves the value of every cookie that the incoming ones do not
/// name unchanged, and gives every incoming cookie its new value.
pub proof fn law_merge(base: Seq<CookiePair>, incoming: Seq<CookiePair>)
    requires
        unique_names(base),
        unique_names(incoming),
    ensures
        unique_names(merge_pairs(base, incoming)),
        merge_pairs(base, incoming).len() >= base.len(),
        forall|i: int|
            0 <= i < base.len() ==> (#[trigger] merge_pairs(base, incoming)[i]).0 == base[i].0,
        forall|i: int|
            0 <= i < base.len() && !has_name(incoming, ascii_lower(base[i].0))
                ==> #[trigger] merge_pairs(base, incoming)[i] == base[i],
        forall|j: int|
            0 <= j < incoming.len() ==> exists|i: int|
                0 <= i < merge_pairs(base, incoming).len() && ascii_lower(
                    merge_pairs(base, incoming)[i].0,
                ) == ascii_lower(#[trigger] incoming[j].0) && merge_pairs(base, incoming)[i].1
                    == incoming[j].1,
    decreases incoming.len(),
{
    if incoming.len() > 0 {
        let init = incoming.drop_last();
        assert forall|a: int, b: int| 0 <= a < b < init.len() implies ascii_lower(
            #[trigger] init[a].0,
        ) != ascii_lower(#[trigger] init[b].0) by {
            assert(init[a] == incoming[a] && init[b] == incoming[b]);
        }
        law_merge(base, init);
        let m = merge_pairs(base, init);
        let p = incoming.last();
        let r = merge_pairs(base, incoming);
        let key = ascii_lower(p.0);
        lemma_find_name_some(m, key);
        match find_name(m, key) {
            Some(idx) => {
                assert(r == m.update(idx, (m[idx].0, p.1)));
                assert forall|a: int, b: int| 0 <= a < b < r.len() implies ascii_lower(
                    #[trigger] r[a].0,
                ) != ascii_lower(#[trigger] r[b].0) by {
                    assert(r[a].0 == m[a].0 && r[b].0 == m[b].0);
                }
                assert forall|i: int|
                    0 <= i < base.len() && !has_name(incoming, ascii_lower(base[i].0)) implies
                    #[trigger] r[i] == base[i] by {
                    if !has_name(init, ascii_lower(base[i].0)) {
                        assert(m[i] == base[i]);
                    } else {
                        let k = choose|k: int| 0 <= k < init.len() && ascii_lower(
                            #[trigger] init[k].0,
                        ) == ascii_lower(base[i].0);
                        assert(incoming[k] == init[k]);
                    }
                    if i == idx {
                        assert(incoming[incoming.len() - 1] == p);
                    }
                }
                assert forall|j: int| 0 <= j < incoming.len() implies exists|i: int|
                    0 <= i < r.len() && ascii_lower(r[i].0) == ascii_lower(
                        #[trigger] incoming[j].0,
                    ) && r[i].1 == incoming[j].1 by {
                    if j < incoming.len() - 1 {
                        assert(incoming[j] == init[j]);
                        let i = choose|i: int|
                            0 <= i < m.len() && ascii_lower(m[i].0) == ascii_lower(
                                #[trigger] init[j].0,
                            ) && m[i].1 == init[j].1;
                        if i == idx {
                            assert(ascii_lower(incoming[j].0) != ascii_lower(
                                incoming[incoming.len() - 1].0,
                            ));
                        }
                        assert(r[i] == m[i]);
                    } else {
                        assert(r[idx].1 == p.1);
                    }
                }
            },
            None => {
                lemma_find_name_none(m, key);
                assert(r == m.push(p));
                assert forall|a: int, b: int| 0 <= a < b < r.len() implies ascii_lower(
                    #[trigger] r[a].0,
                ) != ascii_lower(#[trigger] r[b].0) by {
                    if b == r.len() - 1 {
                        assert(r[b] == p);
                        assert(r[a] == m[a]);
                    } else {
                        assert(r[a] == m[a] && r[b] == m[b]);
                    }
                }
                assert forall|i: int|
                    0 <= i < base.len() && !has_name(incoming, ascii_lower(base[i].0)) implies
                    #[trigger] r[i] == base[i] by {
                    if !has_name(init, ascii_lower(base[i].0)) {
                        assert(m[i] == base[i]);
                    } else {
                        let k = choose|k: int| 0 <= k < init.len() && ascii_lower(
                            #[trigger] init[k].0,
                        ) == ascii_lower(base[i].0);
                        assert(incoming[k] == init[k]);
                    }
                }
                assert forall|j: int| 0 <= j < incoming.len() implies exists|i: int|
                    0 <= i < r.len() && ascii_lower(r[i].0) == ascii_lower(
                        #[trigger] incoming[j].0,
                    ) && r[i].1 == incoming[j].1 by {
                    if j < incoming.len() - 1 {
                        assert(incoming[j] == init[j]);
                        let i = choose|i: int|
                            0 <= i < m.len() && ascii_lower(m[i].0) == ascii_lower(
                                #[trigger] init[j].0,
                            ) && m[i].1 == init[j].1;
                        assert(r[i] == m[i]);
                    } else {
                        assert(r[m.len() as int] == p);
                    }
                }
            },
        }
    }
}

/// Law: merging cookies with distinct names into no cookies gives exactly
/// those cookies, in order.
pub proof fn law_merge_into_nothing(incoming: Seq<CookiePair>)
    requires
        unique_names(incoming),
    ensures
        merge_pairs(Seq::empty(), incoming) == incoming,
    decreases incoming.len(),
{
    if incoming.len() > 0 {
        let init = incoming.drop_last();
        assert forall|a: int, b: int| 0 <= a < b < init.len() implies ascii_lower(
            #[trigger] init[a].0,
        ) != ascii_lower(#[trigger] init[b].0) by {
            assert(init[a] == incoming[a] && init[b] == incoming[b]);
        }
        law_merge_into_nothing(init);
        let p = incoming.last();
        lemma_find_name_some(init, ascii_lower(p.0));
        match find_name(init, ascii_lower(p.0)) {
            Some(i) => {
                assert(init[i] == incoming[i]);
            },
            None => {},
        }
        assert(init.push(p) =~= incoming);
    }
}


/// A cookie that a `Cookie` header can carry and give back: its name holds
/// no `;`, line break or `=`, its value no `;` or line break, both are
/// trimmed, the value is not empty and the name is not an attribute name.
pub open spec fn plain_pair(p: CookiePair) -> bool {
    &&& lacks(p.0, ';')
    &&& lacks(p.0, '\n')
    &&& lacks(p.0, '=')
    &&& lacks(p.1, ';')
    &&& lacks(p.1, '\n')
    &&& p.1.len() > 0
    &&& trim(p.0) == p.0
    &&& trim(p.1) == p.1
    &&& !cookie_attribute(ascii_lower(p.0))
}

/// Whether every pair is plain.
pub open spec fn plain_pairs(pairs: Seq<CookiePair>) -> bool {
    forall|i: int| 0 <= i < pairs.len() ==> plain_pair(#[trigger] pairs[i])
}

proof fn lemma_take_lacks(s: Seq<char>, k: int, c: char)
    requires
        lacks(s, c),
        0 <= k <= s.len(),
    ensures
        lacks(s.take(k), c),
        lacks(s.skip(k), c),
{
    assert forall|i: int| 0 <= i < s.take(k).len() implies s.take(k)[i] != c by {
        assert(s.take(k)[i] == s[i]);
    }
    assert forall|i: int| 0 <= i < s.skip(k).len() implies s.skip(k)[i] != c by {
        assert(s.skip(k)[i] == s[i + k]);
    }
}

proof fn lemma_segment_pair_plain(seg: Seq<char>)
    requires
        lacks(seg, ';'),
        lacks(seg, '\n'),
    ensures
        segment_pair(seg) matches Some(p) ==> plain_pair(p),
{
    let part = trim(seg);
    lemma_trim_lacks(seg, ';');
    lemma_trim_lacks(seg, '\n');
    lemma_trim_idempotent_seg(seg);
    lemma_first_index_some(part, '=');
    match first_index(part, '=') {
        None => {},
        Some(k) => {
            lemma_take_lacks(part, k, ';');
            lemma_take_lacks(part, k, '\n');
            lemma_take_lacks(part, k + 1, ';');
            lemma_take_lacks(part, k + 1, '\n');
            lemma_trim_lacks(part.take(k), ';');
            lemma_trim_lacks(part.take(k), '\n');
            lemma_trim_lacks(part.take(k), '=');
            lemma_trim_lacks(part.skip(k + 1), ';');
            lemma_trim_lacks(part.skip(k + 1), '\n');
        },
    }
}

proof fn lemma_segments_pairs_plain(segs: Seq<Seq<char>>)
    requires
        forall|i: int|
            0 <= i < segs.len() ==> lacks(#[trigger] segs[i], ';') && lacks(segs[i], '\n'),
    ensures
        plain_pairs(segments_pairs(segs)),
    decreases segs.len(),
{
    if segs.len() > 0 {
        let init = segs.drop_last();
        assert forall|i: int| 0 <= i < init.len() implies lacks(#[trigger] init[i], ';') && lacks(
            init[i],
            '\n',
        ) by {
            assert(init[i] == segs[i]);
        }
        lemma_segments_pairs_plain(init);
        assert(segs[segs.len() - 1] == segs.last());
        lemma_segment_pair_plain(segs.last());
        let a = segments_pairs(init);
        match segment_pair(segs.last()) {
            Some(p) => {
                assert forall|i: int| 0 <= i < a.push(p).len() implies plain_pair(
                    #[trigger] a.push(p)[i],
                ) by {
                    if i < a.len() {
                        assert(a.push(p)[i] == a[i]);
                    }
                }
            },
            None => {},
        }
    }
}

proof fn lemma_strip_prefix_lacks(s: Seq<char>, c: char)
    requires
        lacks(s, c),
    ensures
        lacks(strip_prefix_spec(s), c),
{
    let t = trim(s);
    lemma_trim_lacks(s, c);
    reveal_strlit("Cookie:");
    reveal_strlit("cookie:");
    reveal_strlit("Set-Cookie:");
    reveal_strlit("set-cookie:");
    if has_prefix(t, "Cookie:"@) || has_prefix(t, "cookie:"@) {
        lemma_take_lacks(t, 7, c);
        lemma_trim_lacks(t.skip(7), c);
    } else if has_prefix(t, "Set-Cookie:"@) || has_prefix(t, "set-cookie:"@) {
        lemma_take_lacks(t, 11, c);
        lemma_trim_lacks(t.skip(11), c);
    }
}

proof fn lemma_lines_pairs_plain(lines: Seq<Seq<char>>)
    requires
        forall|i: int| 0 <= i < lines.len() ==> lacks(#[trigger] lines[i], '\n'),
    ensures
        plain_pairs(lines_pairs(lines)),
    decreases lines.len(),
{
    if lines.len() > 0 {
        let init = lines.drop_last();
        assert forall|i: int| 0 <= i < init.len() implies lacks(#[trigger] init[i], '\n') by {
            assert(init[i] == lines[i]);
        }
        lemma_lines_pairs_plain(init);
        let line = lines.last();
        assert(lines[lines.len() - 1] == line);
        let t = trim(line);
        if t.len() > 0 {
            lemma_trim_lacks(line, '\n');
            lemma_strip_prefix_lacks(t, '\n');
            let st = strip_prefix_spec(t);
            lemma_split_pieces_lack(st, ';', '\n');
            lemma_segments_pairs_plain(split_on(st, ';'));
        }
        let a = lines_pairs(init);
        let b = line_pairs(line);
        assert forall|i: int| 0 <= i < (a + b).len() implies plain_pair(#[trigger] (a + b)[i]) by {
            if i < a.len() {
                assert((a + b)[i] == a[i]);
            } else {
                assert((a + b)[i] == b[i - a.len()]);
            }
        }
    }
}

/// Law: every cookie read from any text is plain: attributes such as
/// `expires` or `path` never come out as cookies, every value is non-empty,
/// names and values come out trimmed, and neither holds a `;` or a line
/// break (nor the name an `=`).
pub proof fn law_cookie_pairs_plain(value: Seq<char>)
    ensures
        plain_pairs(cookie_pairs(value)),
{
    let lines = split_on(value, '\n');
    lemma_split_pieces_lack(value, '\n', '\n');
    lemma_lines_pairs_plain(lines);
    let c = lines_pairs(lines);
    lemma_first_by_name(c);
    let r = cookie_pairs(value);
    assert forall|i: int| 0 <= i < r.len() implies plain_pair(#[trigger] r[i]) by {
        let j = choose|j: int| 0 <= j < c.len() && r[i] == c[j];
    }
}

proof fn lemma_merge_plain(base: Seq<CookiePair>, incoming: Seq<CookiePair>)
    requires
        plain_pairs(base),
        plain_pairs(incoming),
    ensures
        plain_pairs(merge_pairs(base, incoming)),
    decreases incoming.len(),
{
    if incoming.len() > 0 {
        let init = incoming.drop_last();
        assert forall|i: int| 0 <= i < init.len() implies plain_pair(#[trigger] init[i]) by {
            assert(init[i] == incoming[i]);
        }
        lemma_merge_plain(base, init);
        let m = merge_pairs(base, init);
        let p = incoming.last();
        assert(plain_pair(incoming[incoming.len() - 1]));
        lemma_find_name_some(m, ascii_lower(p.0));
        let r = merge_pairs(base, incoming);
        match find_name(m, ascii_lower(p.0)) {
            Some(idx) => {
                assert(plain_pair(m[idx]));
                assert forall|i: int| 0 <= i < r.len() implies plain_pair(#[trigger] r[i]) by {
                    if i != idx {
                        assert(r[i] == m[i]);
                    }
                }
            },
            None => {
                assert forall|i: int| 0 <= i < r.len() implies plain_pair(#[trigger] r[i]) by {
                    if i < m.len() {
                        assert(r[i] == m[i]);
                    }
                }
            },
        }
    }
}

/// A plain pair's text neither begins nor ends with whitespace.
proof fn lemma_pair_text_ends(p: CookiePair)
    requires
        plain_pair(p),
    ensures
        pair_text(p).len() > 0,
        !is_ws(pair_text(p)[0]),
        !is_ws(pair_text(p).last()),
        lacks(pair_text(p), ';'),
        lacks(pair_text(p), '\n'),
{
    let t = pair_text(p);
    lemma_trimmed_ends(p.1);
    assert(t.last() == p.1.last());
    if p.0.len() > 0 {
        lemma_trimmed_ends(p.0);
        assert(t[0] == p.0[0]);
    } else {
        assert(t[0] == '=');
    }
    assert forall|k: int| 0 <= k < t.len() implies t[k] != ';' && t[k] != '\n' by {
        if k < p.0.len() {
            assert(t[k] == p.0[k]);
        } else if k > p.0.len() {
            assert(t[k] == p.1[k - p.0.len() - 1]);
        }
    }
}

/// The segment of a plain pair's text, with or without one leading space,
/// holds exactly that pair.
proof fn lemma_pair_text_segment(p: CookiePair)
    requires
        plain_pair(p),
    ensures
        segment_pair(pair_text(p)) == Some(p),
        segment_pair(seq![' '] + pair_text(p)) == Some(p),
{
    let t = pair_text(p);
    lemma_pair_text_ends(p);
    lemma_trim_fixed(t);
    lemma_trim_space_before(t);
    assert(t == p.0 + (seq!['='] + p.1));
    lemma_first_index_after(p.0, seq!['='] + p.1, '=');
    let k = p.0.len() as int;
    assert(t.take(k) =~= p.0);
    assert(t.skip(k + 1) =~= p.1);
}

/// The segments of a header of plain pairs: the first pair's text, then
/// each further pair's text after one space.
pub open spec fn pair_segments(pairs: Seq<CookiePair>) -> Seq<Seq<char>> {
    Seq::new(
        pairs.len(),
        |i: int|
            if i == 0 {
                pair_text(pairs[i])
            } else {
                seq![' '] + pair_text(pairs[i])
            },
    )
}

proof fn lemma_header_split(pairs: Seq<CookiePair>)
    requires
        plain_pairs(pairs),
        pairs.len() >= 1,
    ensures
        split_on(header_text(pairs), ';') == pair_segments(pairs),
        header_text(pairs).len() > 0,
        !is_ws(header_text(pairs)[0]),
        !is_ws(header_text(pairs).last()),
        lacks(header_text(pairs), '\n'),
    decreases pairs.len(),
{
    let texts = pairs.map_values(|p: CookiePair| pair_text(p));
    let sep = seq![';', ' '];
    assert forall|i: int| 0 <= i < texts.len() implies (#[trigger] texts[i]).len() > 0 && lacks(
        texts[i],
        '\n',
    ) by {
        assert(plain_pair(pairs[i]));
        lemma_pair_text_ends(pairs[i]);
    }
    lemma_join_ends(texts, sep);
    lemma_join_lacks(texts, sep, '\n');
    let last = pairs.last();
    assert(plain_pair(pairs[pairs.len() - 1]));
    lemma_pair_text_ends(last);
    assert(texts[0] == pair_text(pairs[0]));
    lemma_pair_text_ends(pairs[0]);
    if pairs.len() == 1 {
        assert(header_text(pairs) == texts[0]);
        lemma_split_whole(texts[0], ';');
        assert(pair_segments(pairs) =~= seq![texts[0]]);
    } else {
        let init = pairs.drop_last();
        assert forall|i: int| 0 <= i < init.len() implies plain_pair(#[trigger] init[i]) by {
            assert(init[i] == pairs[i]);
        }
        lemma_header_split(init);
        assert(texts.drop_last() =~= init.map_values(|p: CookiePair| pair_text(p)));
        let h0 = header_text(init);
        let y = seq![' '] + pair_text(last);
        assert forall|k: int| 0 <= k < y.len() implies y[k] != ';' by {
            if k > 0 {
                assert(y[k] == pair_text(last)[k - 1]);
            }
        }
        assert(header_text(pairs) == h0 + sep + texts.last());
        assert(header_text(pairs) =~= h0 + seq![';'] + y);
        lemma_split_append(h0, y, ';');
        assert(pair_segments(pairs) =~= pair_segments(init).push(y));
    }
}

proof fn lemma_segments_reparse(pairs: Seq<CookiePair>)
    requires
        plain_pairs(pairs),
    ensures
        segments_pairs(pair_segments(pairs)) == pairs,
    decreases pairs.len(),
{
    if pairs.len() > 0 {
        let init = pairs.drop_last();
        assert forall|i: int| 0 <= i < init.len() implies plain_pair(#[trigger] init[i]) by {
            assert(init[i] == pairs[i]);
        }
        lemma_segments_reparse(init);
        let segs = pair_segments(pairs);
        assert(segs.drop_last() =~= pair_segments(init));
        assert(plain_pair(pairs[pairs.len() - 1]));
        lemma_pair_text_segment(pairs.last());
        assert(segment_pair(segs.last()) == Some(pairs.last()));
        assert(init.push(pairs.last()) =~= pairs);
    } else {
        assert(pairs =~= Seq::<CookiePair>::empty());
    }
}

proof fn lemma_first_by_name_unique(pairs: Seq<CookiePair>)
    requires
        unique_names(pairs),
    ensures
        first_by_name(pairs) == pairs,
    decreases pairs.len(),
{
    if pairs.len() > 0 {
        let init = pairs.drop_last();
        assert forall|a: int, b: int| 0 <= a < b < init.len() implies ascii_lower(
            #[trigger] init[a].0,
        ) != ascii_lower(#[trigger] init[b].0) by {
            assert(init[a] == pairs[a] && init[b] == pairs[b]);
        }
        lemma_first_by_name_unique(init);
        assert forall|i: int| 0 <= i < init.len() implies ascii_lower(#[trigger] init[i].0)
            != ascii_lower(pairs.last().0) by {
            assert(init[i] == pairs[i]);
            assert(pairs[pairs.len() - 1] == pairs.last());
        }
        assert(init.push(pairs.last()) =~= pairs);
    } else {
        assert(pairs =~= Seq::<CookiePair>::empty());
    }
}

/// Whether `text` begins with one of the prefixes that cookie text may
/// carry (`Cookie:`, `cookie:`, `Set-Cookie:`, `set-cookie:`).
pub open spec fn has_cookie_prefix(text: Seq<char>) -> bool {
    ||| has_prefix(text, "Cookie:"@)
    ||| has_prefix(text, "cookie:"@)
    ||| has_prefix(text, "Set-Cookie:"@)
    ||| has_prefix(text, "set-cookie:"@)
}

/// Reading back a header of plain cookies with distinct names, written as
/// one line, gives those cookies.
proof fn lemma_header_reparse(pairs: Seq<CookiePair>)
    requires
        plain_pairs(pairs),
        unique_names(pairs),
        pairs.len() >= 1,
        !has_cookie_prefix(header_text(pairs)),
    ensures
        cookie_pairs(header_text(pairs) + seq!['\n']) == pairs,
        cookie_pairs(header_text(pairs)) == pairs,
{
    let h = header_text(pairs);
    lemma_header_split(pairs);
    lemma_trim_fixed(h);
    lemma_split_whole(h, '\n');
    let e = Seq::<char>::empty();
    assert(lacks(e, '\n'));
    lemma_split_append(h, e, '\n');
    assert(h + seq!['\n'] + e =~= h + seq!['\n']);
    let lines = split_on(h + seq!['\n'], '\n');
    assert(lines =~= seq![h, e]);
    assert(strip_prefix_spec(h) == h);
    lemma_segments_reparse(pairs);
    assert(line_pairs(h) == pairs);
    assert(trim(e) =~= e);
    assert(line_pairs(e) =~= Seq::<CookiePair>::empty());
    assert(lines.drop_last() =~= seq![h]);
    assert(seq![h].drop_last() =~= Seq::<Seq<char>>::empty());
    assert(seq![h].last() == h);
    assert(lines_pairs(seq![h]) == lines_pairs(Seq::<Seq<char>>::empty()) + line_pairs(h));
    assert(lines_pairs(seq![h]) =~= pairs);
    assert(lines_pairs(lines) =~= pairs);
    lemma_first_by_name_unique(pairs);
}

/// Law (saved cookie): the header that merging gives, written to the cookie
/// file with a line break and read back with nothing to merge into, is that
/// same header. A header that begins with `Cookie:` or `Set-Cookie:` (in
/// either case) is left out: reading it back strips that prefix.
pub proof fn law_saved_cookie_reloads(value: Seq<char>, existing: Seq<char>)
    requires
        normalized_cookie(value, existing).len() > 0,
        !has_cookie_prefix(normalized_cookie(value, existing)),
    ensures
        normalized_cookie(normalized_cookie(value, existing) + seq!['\n'], Seq::empty())
            == normalized_cookie(value, existing),
{
    let base = cookie_pairs(existing);
    let incoming = cookie_pairs(value);
    law_cookie_names_unique(existing);
    law_cookie_names_unique(value);
    law_cookie_pairs_plain(existing);
    law_cookie_pairs_plain(value);
    let m = merge_pairs(base, incoming);
    law_merge(base, incoming);
    lemma_merge_plain(base, incoming);
    let h = normalized_cookie(value, existing);
    assert(incoming.len() > 0);
    assert(h == header_text(m));
    if m.len() == 0 {
        assert(m.map_values(|p: CookiePair| pair_text(p)) =~= Seq::<Seq<char>>::empty());
    }
    lemma_header_reparse(m);
    let e = Seq::<char>::empty();
    lemma_split_whole(e, '\n');
    assert(trim(e) =~= e);
    assert(seq![e].drop_last() =~= Seq::<Seq<char>>::empty());
    assert(seq![e].last() == e);
    assert(line_pairs(e) =~= Seq::<CookiePair>::empty());
    assert(lines_pairs(seq![e]) == lines_pairs(Seq::<Seq<char>>::empty()) + line_pairs(e));
    assert(lines_pairs(seq![e]) =~= Seq::<CookiePair>::empty());
    assert(cookie_pairs(e) =~= Seq::<CookiePair>::empty());
    law_merge_into_nothing(m);
}

proof fn lemma_merge_absorbs(m: Seq<CookiePair>, incoming: Seq<CookiePair>)
    requires
        unique_names(m),
        forall|j: int|
            0 <= j < incoming.len() ==> exists|i: int|
                0 <= i < m.len() && ascii_lower(m[i].0) == ascii_lower(#[trigger] incoming[j].0)
                    && m[i].1 == incoming[j].1,
    ensures
        merge_pairs(m, incoming) == m,
    decreases incoming.len(),
{
    if incoming.len() > 0 {
        let init = incoming.drop_last();
        assert forall|j: int| 0 <= j < init.len() implies exists|i: int|
            0 <= i < m.len() && ascii_lower(m[i].0) == ascii_lower(#[trigger] init[j].0) && m[i].1
                == init[j].1 by {
            assert(init[j] == incoming[j]);
        }
        lemma_merge_absorbs(m, init);
        let p = incoming.last();
        let k = incoming.len() - 1;
        assert(incoming[k] == p);
        let i = choose|i: int|
            0 <= i < m.len() && ascii_lower(m[i].0) == ascii_lower(#[trigger] incoming[k].0)
                && m[i].1 == incoming[k].1;
        lemma_find_name_some(m, ascii_lower(p.0));
        match find_name(m, ascii_lower(p.0)) {
            Some(idx) => {
                if idx != i {
                    if idx < i {
                        assert(ascii_lower(m[idx].0) != ascii_lower(m[i].0));
                    } else {
                        assert(ascii_lower(m[i].0) != ascii_lower(m[idx].0));
                    }
                }
                assert(m.update(idx, (m[idx].0, p.1)) =~= m);
            },
            None => {
                assert(ascii_lower(m[i].0) != ascii_lower(p.0));
            },
        }
    }
}

/// Law (pasting again): pasting the same cookie text a second time into the
/// header that the first paste gave leaves that header unchanged. A header
/// that begins with `Cookie:` or `Set-Cookie:` (in either case) is left out:
/// reading it as the existing cookie strips that prefix.
pub proof fn law_paste_twice(value: Seq<char>, existing: Seq<char>)
    requires
        normalized_cookie(value, existing).len() > 0,
        !has_cookie_prefix(normalized_cookie(value, existing)),
    ensures
        normalized_cookie(value, normalized_cookie(value, existing)) == normalized_cookie(
            value,
            existing,
        ),
{
    let base = cookie_pairs(existing);
    let incoming = cookie_pairs(value);
    law_cookie_names_unique(existing);
    law_cookie_names_unique(value);
    law_cookie_pairs_plain(existing);
    law_cookie_pairs_plain(value);
    let m = merge_pairs(base, incoming);
    law_merge(base, incoming);
    lemma_merge_plain(base, incoming);
    let h = normalized_cookie(value, existing);
    assert(h == header_text(m));
    if m.len() == 0 {
        assert(m.map_values(|p: CookiePair| pair_text(p)) =~= Seq::<Seq<char>>::empty());
    }
    lemma_header_reparse(m);
    lemma_merge_absorbs(m, incoming);
}

/// Law (normalized header): a header that merging gave, normalized again
/// with no existing cookie or merged into itself, is given back unchanged.
/// A header that begins with `Cookie:` or `Set-Cookie:` (in either case) is
/// left out: reading it strips that prefix.
pub proof fn law_header_is_fixed(value: Seq<char>, existing: Seq<char>)
    requires
        normalized_cookie(value, existing).len() > 0,
        !has_cookie_prefix(normalized_cookie(value, existing)),
    ensures
        normalized_cookie(normalized_cookie(value, existing), Seq::empty()) == normalized_cookie(
            value,
            existing,
        ),
        normalized_cookie(normalized_cookie(value, existing), normalized_cookie(value, existing))
            == normalized_cookie(value, existing),
{
    let base = cookie_pairs(existing);
    let incoming = cookie_pairs(value);
    law_cookie_names_unique(existing);
    law_cookie_names_unique(value);
    law_cookie_pairs_plain(existing);
    law_cookie_pairs_plain(value);
    let m = merge_pairs(base, incoming);
    law_merge(base, incoming);
    lemma_merge_plain(base, incoming);
    let h = normalized_cookie(value, existing);
    assert(h == header_text(m));
    if m.len() == 0 {
        assert(m.map_values(|p: CookiePair| pair_text(p)) =~= Seq::<Seq<char>>::empty());
    }
    lemma_header_reparse(m);
    let e = Seq::<char>::empty();
    lemma_split_whole(e, '\n');
    assert(trim(e) =~= e);
    assert(seq![e].drop_last() =~= Seq::<Seq<char>>::empty());
    assert(seq![e].last() == e);
    assert(line_pairs(e) =~= Seq::<CookiePair>::empty());
    assert(lines_pairs(seq![e]) == lines_pairs(Seq::<Seq<char>>::empty()) + line_pairs(e));
    assert(lines_pairs(seq![e]) =~= Seq::<CookiePair>::empty());
    assert(cookie_pairs(e) =~= Seq::<CookiePair>::empty());
    law_merge_into_nothing(m);
    assert forall|j: int| 0 <= j < m.len() implies exists|i: int|
        0 <= i < m.len() && ascii_lower(m[i].0) == ascii_lower(#[trigger] m[j].0) && m[i].1
            == m[j].1 by {
        assert(ascii_lower(m[j].0) == ascii_lower(m[j].0));
    }
    lemma_merge_absorbs(m, m);
}

/// Law (masking): a cookie of at most 16 characters (trimmed) shows as
/// `<set>`; a longer one shows as exactly 19 characters, its first 8, then
/// `...`, then its last 8, so that no more of it is ever shown.
pub proof fn law_mask_shape(cookie: Seq<char>)
    ensures
        trim(cookie).len() <= 16 ==> masked(cookie) == "<set>"@,
        trim(cookie).len() > 16 ==> {
            let t = trim(cookie);
            let m = masked(cookie);
            &&& m.len() == 19
            &&& forall|k: int| 0 <= k < 8 ==> #[trigger] m[k] == t[k]
            &&& m[8] == '.' && m[9] == '.' && m[10] == '.'
            &&& forall|k: int| 11 <= k < 19 ==> #[trigger] m[k] == t[t.len() - 19 + k]
        },
{
}

} // verus!
