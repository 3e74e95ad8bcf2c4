//! Text rules of the service: comma-separated label lists, joining tags for
//! display, theme filtering for the page view, and the database location.

use vstd::prelude::*;

use crate::error::QuoteError;
use crate::quote::strings_view;

verus! {

/// Whether `c` is white space in Unicode's sense (the `White_Space` property).
pub open spec fn is_space(c: char) -> bool {
    let u = c as u32;
    (0x09 <= u && u <= 0x0d) || u == 0x20 || u == 0x85 || u == 0xa0 || u == 0x1680 || (0x2000
        <= u && u <= 0x200a) || u == 0x2028 || u == 0x2029 || u == 0x202f || u == 0x205f || u
        == 0x3000
}

/// `s` without its leading white space.
pub open spec fn trim_start(s: Seq<char>) -> Seq<char>
    decreases s.len(),
{
    if s.len() > 0 && is_space(s[0]) {
        trim_start(s.drop_first())
    } else {
        s
    }
}

/// `s` without its trailing white space.
pub open spec fn trim_end(s: Seq<char>) -> Seq<char>
    decreases s.len(),
{
    if s.len() > 0 && is_space(s.last()) {
        trim_end(s.drop_last())
    } else {
        s
    }
}

/// `s` without leading and trailing white space.
pub open spec fn trim(s: Seq<char>) -> Seq<char> {
    trim_end(trim_start(s))
}

/// The pieces of `s` between commas; there is always at least one.
pub open spec fn split_commas(s: Seq<char>) -> Seq<Seq<char>>
    decreases s.len(),
{
    if s.len() == 0 {
        seq![Seq::empty()]
    } else {
        let p = split_commas(s.drop_last());
        if s.last() == ',' {
            p.push(Seq::empty())
        } else {
            p.update(p.len() - 1, p.last().push(s.last()))
        }
    }
}

/// Each piece trimmed, and the pieces that are then empty dropped.
pub open spec fn clean(ps: Seq<Seq<char>>) -> Seq<Seq<char>>
    decreases ps.len(),
{
    if ps.len() == 0 {
        Seq::empty()
    } else {
        let r = clean(ps.drop_last());
        let t = trim(ps.last());
        if t.len() == 0 {
            r
        } else {
            r.push(t)
        }
    }
}

/// The labels of a comma-separated list: split at commas, trimmed, empty ones
/// dropped.
pub open spec fn parse_tags(s: Seq<char>) -> Seq<Seq<char>> {
    clean(split_commas(s))
}

/// The bounds of `s@[from..to]` once trimmed.
fn trim_bounds(s: &str, from: usize, to: usize) -> (r: (usize, usize))
    requires
        from <= to <= s@.len(),
    ensures
        from <= r.0 <= r.1 <= to,
        s@.subrange(r.0 as int, r.1 as int) == trim(s@.subrange(from as int, to as int)),
{
    let mut a = from;
    while a < to && is_whitespace(s.get_char(a))
        invariant
            from <= a <= to <= s@.len(),
            trim_start(s@.subrange(from as int, to as int)) == trim_start(
                s@.subrange(a as int, to as int),
            ),
        decreases to - a,
    {
        assert(s@.subrange(a as int, to as int).drop_first() == s@.subrange(a + 1, to as int));
        a = a + 1;
    }
    let mut b = to;
    while b > a && is_whitespace(s.get_char(b - 1))
        invariant
            from <= a <= b <= to <= s@.len(),
            trim_end(s@.subrange(a as int, to as int)) == trim_end(s@.subrange(a as int, b as int)),
        decreases b - a,
    {
        assert(s@.subrange(a as int, b as int).drop_last() == s@.subrange(a as int, b - 1));
        b = b - 1;
    }
    (a, b)
}

/// Whether `s` is empty once trimmed.
pub fn is_blank(s: &str) -> (r: bool)
    ensures
        r == (trim(s@).len() == 0),
{
    let n = s.unicode_len();
    let (a, b) = trim_bounds(s, 0, n);
    assert(s@.subrange(0, n as int) == s@);
    a == b
}

/// Whether `c` is white space, as `char::is_whitespace` decides it.
pub fn is_whitespace(c: char) -> (r: bool)
    ensures
        r == is_space(c),
{
    let u = c as u32;
    (0x09 <= u && u <= 0x0d) || u == 0x20 || u == 0x85 || u == 0xa0 || u == 0x1680 || (0x2000
        <= u && u <= 0x200a) || u == 0x2028 || u == 0x2029 || u == 0x202f || u == 0x205f || u
        == 0x3000
}

/// Appends the trimmed piece `s@[from..to]` to `out` unless it is empty.
fn push_trimmed(out: &mut Vec<String>, s: &str, from: usize, to: usize)
    requires
        from <= to <= s@.len(),
    ensures
        ({
            let t = trim(s@.subrange(from as int, to as int));
            strings_view(final(out)@) == if t.len() == 0 {
                strings_view(old(out)@)
            } else {
                strings_view(old(out)@).push(t)
            }
        }),
{
    let (a, b) = trim_bounds(s, from, to);
    if a < b {
        let piece = String::from_str(s.substring_char(a, b));
        out.push(piece);
        assert(strings_view(final(out)@) =~= strings_view(old(out)@).push(
            trim(s@.subrange(from as int, to as int)),
        ));
    }
}

/// The labels of a comma-separated list such as `"love, life"`: the pieces
/// between commas, trimmed, with the empty ones dropped.
pub fn parse_tag_list(s: &str) -> (r: Vec<String>)
    ensures
        strings_view(r@) == parse_tags(s@),
{
    let n = s.unicode_len();
    let mut out: Vec<String> = Vec::new();
    let ghost mut done: Seq<Seq<char>> = Seq::empty();
    let mut st: usize = 0;
    let mut i: usize = 0;
    assert(s@.subrange(0, 0) =~= Seq::<char>::empty());
    assert(done.push(s@.subrange(0, 0)) =~= seq![Seq::<char>::empty()]);
    while i < n
        invariant
            n == s@.len(),
            st <= i <= n,
            split_commas(s@.subrange(0, i as int)) == done.push(s@.subrange(st as int, i as int)),
            strings_view(out@) == clean(done),
        decreases n - i,
    {
        let c = s.get_char(i);
        let ghost pre = s@.subrange(0, i as int);
        assert(s@.subrange(0, i + 1).drop_last() == pre);
        assert(s@.subrange(0, i + 1).last() == c);
        if c == ',' {
            push_trimmed(&mut out, s, st, i);
            proof {
                let piece = s@.subrange(st as int, i as int);
                assert(done.push(piece).drop_last() == done);
                done = done.push(piece);
                assert(s@.subrange(i + 1, i + 1) == Seq::<char>::empty());
            }
            st = i + 1;
        } else {
            assert(s@.subrange(st as int, i + 1) == s@.subrange(st as int, i as int).push(c));
            assert(done.push(s@.subrange(st as int, i as int)).update(
                done.len() as int,
                s@.subrange(st as int, i + 1),
            ) == done.push(s@.subrange(st as int, i + 1)));
        }
        i = i + 1;
    }
    push_trimmed(&mut out, s, st, n);
    proof {
        let piece = s@.subrange(st as int, n as int);
        assert(done.push(piece).drop_last() == done);
        assert(s@.subrange(0, n as int) == s@);
    }
    out
}

/// The pieces joined in order, with `sep` between each two.
pub open spec fn join(ps: Seq<Seq<char>>, sep: Seq<char>) -> Seq<char>
    decreases ps.len(),
{
    if ps.len() == 0 {
        Seq::empty()
    } else if ps.len() == 1 {
        ps[0]
    } else {
        join(ps.drop_last(), sep) + sep + ps.last()
    }
}

/// The tags joined in order with `sep` between each two, as the page shows
/// them (`"love, life"`).
pub fn join_tags(tags: &Vec<String>, sep: &str) -> (r: String)
    ensures
        r@ == join(strings_view(tags@), sep@),
{
    let ghost sv = strings_view(tags@);
    let mut r = String::new();
    let mut i: usize = 0;
    while i < tags.len()
        invariant
            i <= tags.len(),
            sv == strings_view(tags@),
            r@ == join(sv.subrange(0, i as int), sep@),
        decreases tags.len() - i,
    {
        assert(sv.subrange(0, i + 1).drop_last() == sv.subrange(0, i as int));
        assert(sv.subrange(0, i + 1).last() == tags@[i as int]@);
        if i > 0 {
            r.append(sep);
        } else {
            assert(sv.subrange(0, 1) == seq![tags@[0]@]);
        }
        r.append(tags[i].as_str());
        i = i + 1;
    }
    assert(sv.subrange(0, tags.len() as int) == sv);
    r
}

/// Whether `c` has Unicode's `Alphabetic` property.
pub uninterp spec fn alphabetic(c: char) -> bool;

/// The characters of the lowercase mapping of `c` (one or more).
pub uninterp spec fn lowercase_of(c: char) -> Seq<char>;

/// Relies on char::is_alphabetic: whether `c` has the `Alphabetic` property.
#[verifier::external_body]
fn char_is_alphabetic(c: char) -> (r: bool)
    ensures
        r == alphabetic(c),
{
    c.is_alphabetic()
}

/// Relies on char::to_lowercase: the lowercase mapping of `c`, collected.
#[verifier::external_body]
fn char_to_lowercase(c: char) -> (r: String)
    ensures
        r@ == lowercase_of(c),
{
    c.to_lowercase().collect()
}

/// The characters of `s` that are letters (by `alpha`) or commas, each
/// replaced by its lowercase form in `lowered`; `alpha[i]` and `lowered[i]`
/// describe `s[i]`.
pub open spec fn theme_of(s: Seq<char>, alpha: Seq<bool>, lowered: Seq<Seq<char>>) -> Seq<char>
    decreases s.len(),
{
    if s.len() == 0 {
        Seq::empty()
    } else {
        let r = theme_of(s.drop_last(), alpha.drop_last(), lowered.drop_last());
        let k = s.len() - 1;
        if alpha[k] || s[k] == ',' {
            r + lowered[k]
        } else {
            r
        }
    }
}

/// The letters and commas of `s`, lowercased; everything else dropped.
pub open spec fn theme_filter(s: Seq<char>) -> Seq<char> {
    theme_of(
        s,
        Seq::new(s.len(), |i: int| alphabetic(s[i])),
        Seq::new(s.len(), |i: int| lowercase_of(s[i])),
    )
}

/// The theme text reduced to the characters that `alpha` marks as letters and
/// to commas, each replaced by its lowercase form in `lowered`.
pub fn theme_from_parts(s: &str, alpha: &Vec<bool>, lowered: &Vec<String>) -> (r: String)
    requires
        alpha@.len() == s@.len(),
        lowered@.len() == s@.len(),
    ensures
        r@ == theme_of(s@, alpha@, strings_view(lowered@)),
{
    let ghost lv = strings_view(lowered@);
    let n = alpha.len();
    let mut r = String::new();
    let mut i: usize = 0;
    while i < n
        invariant
            n == s@.len(),
            alpha@.len() == n,
            lowered@.len() == n,
            lv == strings_view(lowered@),
            i <= n,
            r@ == theme_of(
                s@.subrange(0, i as int),
                alpha@.subrange(0, i as int),
                lv.subrange(0, i as int),
            ),
        decreases n - i,
    {
        let c = s.get_char(i);
        assert(s@.subrange(0, i + 1).drop_last() == s@.subrange(0, i as int));
        assert(alpha@.subrange(0, i + 1).drop_last() == alpha@.subrange(0, i as int));
        assert(lv.subrange(0, i + 1).drop_last() == lv.subrange(0, i as int));
        assert(s@.subrange(0, i + 1)[i as int] == c);
        assert(lv.subrange(0, i + 1)[i as int] == lowered@[i as int]@);
        if alpha[i] || c == ',' {
            r.append(lowered[i].as_str());
        }
        i = i + 1;
    }
    assert(s@.subrange(0, n as int) == s@);
    assert(alpha@.subrange(0, n as int) == alpha@);
    assert(lv.subrange(0, n as int) == lv);
    r
}

/// The theme text of the page view reduced to lowercase letters and commas.
pub fn sanitize_theme(s: &str) -> (r: String)
    ensures
        r@ == theme_filter(s@),
{
    let n = s.unicode_len();
    let mut alpha: Vec<bool> = Vec::new();
    let mut lowered: Vec<String> = Vec::new();
    let mut i: usize = 0;
    while i < n
        invariant
            n == s@.len(),
            i <= n,
            alpha@ == Seq::new(i as nat, |k: int| alphabetic(s@[k])),
            strings_view(lowered@) == Seq::new(i as nat, |k: int| lowercase_of(s@[k])),
        decreases n - i,
    {
        let c = s.get_char(i);
        let ghost lo = lowered@;
        alpha.push(char_is_alphabetic(c));
        lowered.push(char_to_lowercase(c));
        assert(alpha@ =~= Seq::new((i + 1) as nat, |k: int| alphabetic(s@[k])));
        assert(strings_view(lowered@) =~= strings_view(lo).push(lowercase_of(c)));
        assert(strings_view(lowered@) =~= Seq::new((i + 1) as nat, |k: int| lowercase_of(s@[k])));
        i = i + 1;
    }
    theme_from_parts(s, &alpha, &lowered)
}

/// Whether `s` begins with `p`.
fn has_prefix(s: &str, p: &str) -> (r: bool)
    ensures
        r == (p@.len() <= s@.len() && s@.subrange(0, p@.len() as int) == p@),
{
    let n = s.unicode_len();
    let m = p.unicode_len();
    if m > n {
        return false;
    }
    let mut k: usize = 0;
    while k < m
        invariant
            n == s@.len(),
            m == p@.len(),
            m <= n,
            k <= m,
            forall|j: int| 0 <= j < k ==> s@[j] == p@[j],
        decreases m - k,
    {
        if s.get_char(k) != p.get_char(k) {
            assert(s@.subrange(0, m as int)[k as int] != p@[k as int]);
            return false;
        }
        k = k + 1;
    }
    assert(s@.subrange(0, m as int) =~= p@);
    true
}

/// Whether `s` ends with `p`.
fn has_suffix(s: &str, p: &str) -> (r: bool)
    ensures
        r == (p@.len() <= s@.len() && s@.subrange(s@.len() - p@.len(), s@.len() as int) == p@),
{
    let n = s.unicode_len();
    let m = p.unicode_len();
    if m > n {
        return false;
    }
    let off = n - m;
    let mut k: usize = 0;
    while k < m
        invariant
            n == s@.len(),
            m == p@.len(),
            off == n - m,
            k <= m,
            forall|j: int| 0 <= j < k ==> s@[off + j] == p@[j],
        decreases m - k,
    {
        if s.get_char(off + k) != p.get_char(k) {
            assert(s@.subrange(off as int, n as int)[k as int] != p@[k as int]);
            return false;
        }
        k = k + 1;
    }
    assert(s@.subrange(off as int, n as int) =~= p@);
    true
}

/// What precedes the last `/` of `rest`; empty when there is none.
pub open spec fn dir_part(rest: Seq<char>) -> Seq<char>
    decreases rest.len(),
{
    if rest.len() == 0 {
        Seq::empty()
    } else if rest.last() == '/' {
        rest.drop_last()
    } else {
        dir_part(rest.drop_last())
    }
}

/// The directory that a database URI of the form `sqlite://<path>.db` names:
/// the path up to its last `/`, or empty when it has none; `None` for a URI of
/// any other form.
pub open spec fn db_dir(s: Seq<char>) -> Option<Seq<char>> {
    let pre = "sqlite://"@;
    let suf = ".db"@;
    if pre.len() <= s.len() && s.subrange(0, pre.len() as int) == pre && suf.len() <= s.len()
        && s.subrange(s.len() - suf.len(), s.len() as int) == suf {
        Some(dir_part(s.subrange(pre.len() as int, s.len() as int)))
    } else {
        None
    }
}

/// The directory to create for a database URI `sqlite://<path>.db`; any other
/// URI is refused with `InvalidDbUri`.
pub fn extract_db_dir(db_uri: &str) -> (r: Result<&str, QuoteError>)
    ensures
        match r {
            Ok(d) => db_dir(db_uri@) == Some(d@),
            Err(e) => db_dir(db_uri@) is None && (e matches QuoteError::InvalidDbUri(m) && m@
                == db_uri@),
        },
{
    if has_prefix(db_uri, "sqlite://") && has_suffix(db_uri, ".db") {
        proof {
            reveal_strlit("sqlite://");
        }
        let n = db_uri.unicode_len();
        let mut j = n;
        while j > 9 && db_uri.get_char(j - 1) != '/'
            invariant
                9 <= j <= n,
                n == db_uri@.len(),
                dir_part(db_uri@.subrange(9, n as int)) == dir_part(db_uri@.subrange(9, j as int)),
            decreases j,
        {
            assert(db_uri@.subrange(9, j as int).drop_last() == db_uri@.subrange(9, j - 1));
            j = j - 1;
        }
        if j > 9 {
            assert(db_uri@.subrange(9, j as int).drop_last() == db_uri@.subrange(9, j - 1));
            Ok(db_uri.substring_char(9, j - 1))
        } else {
            Ok(db_uri.substring_char(9, 9))
        }
    } else {
        Err(QuoteError::InvalidDbUri(String::from_str(db_uri)))
    }
}

/// The database URI: the one given, else the one from the environment, else
/// `sqlite://db/quotes.db`.
pub fn get_db_uri(db_uri: Option<&str>, env_url: Option<&str>) -> (r: String)
    ensures
        r@ == match db_uri {
            Some(u) => u@,
            None => match env_url {
                Some(e) => e@,
                None => "sqlite://db/quotes.db"@,
            },
        },
{
    match db_uri {
        Some(u) => String::from_str(u),
        None => match env_url {
            Some(e) => String::from_str(e),
            None => String::from_str("sqlite://db/quotes.db"),
        },
    }
}

/// Each piece trimmed.
pub open spec fn trim_each(ps: Seq<Seq<char>>) -> Seq<Seq<char>> {
    ps.map_values(|p: Seq<char>| trim(p))
}

/// Whether every character of `s` is an ASCII digit.
pub open spec fn all_ascii_digits(s: Seq<char>) -> bool {
    forall|i: int| 0 <= i < s.len() ==> 48 <= (#[trigger] s[i]) as u32 <= 57
}

/// The API endpoint that the front end asks for a theme box holding `theme`:
/// a random quote when it is blank, the quote of that identifier when it is
/// all digits, else the tagged selection over its trimmed comma-separated
/// pieces.
pub open spec fn endpoint_of(theme: Seq<char>) -> Seq<char> {
    if trim(theme).len() == 0 {
        "random-quote"@
    } else if all_ascii_digits(theme) {
        "quote/"@ + theme
    } else {
        "tagged-quote?tags="@ + join(trim_each(split_commas(theme)), ","@)
    }
}

/// The pieces of `s` between commas, each trimmed; empty ones are kept.
fn split_trimmed(s: &str) -> (r: Vec<String>)
    ensures
        strings_view(r@) == trim_each(split_commas(s@)),
{
    let n = s.unicode_len();
    let mut out: Vec<String> = Vec::new();
    let ghost mut done: Seq<Seq<char>> = Seq::empty();
    let mut st: usize = 0;
    let mut i: usize = 0;
    assert(s@.subrange(0, 0) =~= Seq::<char>::empty());
    assert(done.push(s@.subrange(0, 0)) =~= seq![Seq::<char>::empty()]);
    assert(strings_view(out@) =~= trim_each(done));
    while i < n
        invariant
            n == s@.len(),
            st <= i <= n,
            split_commas(s@.subrange(0, i as int)) == done.push(s@.subrange(st as int, i as int)),
            strings_view(out@) == trim_each(done),
        decreases n - i,
    {
        let c = s.get_char(i);
        assert(s@.subrange(0, i + 1).drop_last() == s@.subrange(0, i as int));
        assert(s@.subrange(0, i + 1).last() == c);
        if c == ',' {
            let (a, b) = trim_bounds(s, st, i);
            let ghost before = out@;
            out.push(String::from_str(s.substring_char(a, b)));
            proof {
                let piece = s@.subrange(st as int, i as int);
                assert(done.push(piece).drop_last() == done);
                assert(strings_view(out@) =~= strings_view(before).push(trim(piece)));
                assert(trim_each(done.push(piece)) =~= trim_each(done).push(trim(piece)));
                done = done.push(piece);
                assert(s@.subrange(i + 1, i + 1) == Seq::<char>::empty());
            }
            st = i + 1;
        } else {
            assert(s@.subrange(st as int, i + 1) == s@.subrange(st as int, i as int).push(c));
            assert(done.push(s@.subrange(st as int, i as int)).update(
                done.len() as int,
                s@.subrange(st as int, i + 1),
            ) == done.push(s@.subrange(st as int, i + 1)));
        }
        i = i + 1;
    }
    let (a, b) = trim_bounds(s, st, n);
    let ghost before = out@;
    out.push(String::from_str(s.substring_char(a, b)));
    proof {
        let piece = s@.subrange(st as int, n as int);
        assert(strings_view(out@) =~= strings_view(before).push(trim(piece)));
        assert(trim_each(done.push(piece)) =~= trim_each(done).push(trim(piece)));
        assert(s@.subrange(0, n as int) == s@);
    }
    out
}

/// Whether every character of `s` is an ASCII digit.
fn is_all_ascii_digits(s: &str) -> (r: bool)
    ensures
        r == all_ascii_digits(s@),
{
    let n = s.unicode_len();
    let mut i: usize = 0;
    while i < n
        invariant
            n == s@.len(),
            i <= n,
            forall|j: int| 0 <= j < i ==> 48 <= (#[trigger] s@[j]) as u32 <= 57,
        decreases n - i,
    {
        let u = s.get_char(i) as u32;
        if u < 48 || u > 57 {
            return false;
        }
        i = i + 1;
    }
    true
}

/// The API endpoint that the front end asks for when its theme box holds
/// `theme`: `random-quote` when blank, `quote/<theme>` when all digits, else
/// `tagged-quote?tags=` with the trimmed pieces joined by commas.
pub fn endpoint_for(theme: &str) -> (r: String)
    ensures
        r@ == endpoint_of(theme@),
{
    let n = theme.unicode_len();
    let (a, b) = trim_bounds(theme, 0, n);
    assert(theme@.subrange(0, n as int) == theme@);
    if a == b {
        String::from_str("random-quote")
    } else if is_all_ascii_digits(theme) {
        String::from_str("quote/").concat(theme)
    } else {
        let pieces = split_trimmed(theme);
        let joined = join_tags(&pieces, ",");
        String::from_str("tagged-quote?tags=").concat(joined.as_str())
    }
}

} // verus!
