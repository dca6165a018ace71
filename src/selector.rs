use vstd::prelude::*;

verus! {

/// What the last segment of a selector asks for.
#[derive(Debug, Clone, Copy, PartialEq, Eq, Structural)]
pub enum Quantifier {
    /// The one type whose full path is the selector's path.
    Exact,
    /// Every direct child of the namespace that the path names.
    Wildcard,
}

/// A parsed selector: for `Exact` the full path of a type, for `Wildcard` the
/// path of the namespace (the trailing `*` is not kept).
#[derive(Debug, Clone)]
pub struct Selector {
    pub path: Vec<String>,
    pub quantifier: Quantifier,
}

/// Why a list of selectors could not be resolved; each names the expression.
#[derive(Debug, Clone, PartialEq, Eq)]
pub enum SelectorError {
    /// The expression is not a `::`-separated path of identifiers, optionally
    /// ending in `*`.
    Syntax(String),
    /// The expression is well formed but selects no node of the graph.
    UnknownIdentifier(String),
}

/// The characters of a path segment: ASCII letters, digits and `_`.
pub open spec fn is_ident_char(c: char) -> bool {
    ('a' <= c && c <= 'z') || ('A' <= c && c <= 'Z') || ('0' <= c && c <= '9') || c == '_'
}

/// The end of the run of identifier characters that starts at `pos`.
pub open spec fn ident_end(s: Seq<char>, pos: int) -> int
    decreases s.len() - pos,
{
    if 0 <= pos < s.len() && is_ident_char(s[pos]) {
        ident_end(s, pos + 1)
    } else {
        pos
    }
}

/// The end of the segment that starts at `pos`: a lone `*`, or an identifier.
pub open spec fn token_end(s: Seq<char>, pos: int) -> int {
    if 0 <= pos < s.len() && s[pos] == '*' {
        pos + 1
    } else {
        ident_end(s, pos)
    }
}

/// The segments of `s` from `pos` on, when that rest is a non-empty list of
/// segments separated by `::`.
pub open spec fn segments_from(s: Seq<char>, pos: int) -> Option<Seq<Seq<char>>>
    decreases s.len() - pos,
{
    let e = token_end(s, pos);
    if e <= pos || pos < 0 {
        None
    } else if e >= s.len() {
        Some(seq![s.subrange(pos, e)])
    } else if e + 1 < s.len() && s[e] == ':' && s[e + 1] == ':' {
        match segments_from(s, e + 2) {
            Some(rest) => Some(seq![s.subrange(pos, e)] + rest),
            None => None,
        }
    } else {
        None
    }
}

/// The `*` segment.
pub open spec fn star() -> Seq<char> {
    seq!['*']
}

/// The selector that the text `s` denotes: at least two segments, a `*` only
/// as the last one.
pub open spec fn selector_spec(s: Seq<char>) -> Option<(Seq<Seq<char>>, Quantifier)> {
    match segments_from(s, 0) {
        Some(segs) => if segs.len() < 2 || exists|j: int| 0 <= j < segs.len() - 1 && segs[j] == star() {
            None
        } else if segs.last() == star() {
            Some((segs.drop_last(), Quantifier::Wildcard))
        } else {
            Some((segs, Quantifier::Exact))
        },
        None => None,
    }
}

/// The texts of a list of names.
pub open spec fn names(v: Seq<String>) -> Seq<Seq<char>> {
    v.map_values(|x: String| x@)
}

/// `segs` put before the segments of the rest, if the rest has any.
pub open spec fn prepend(segs: Seq<Seq<char>>, rest: Option<Seq<Seq<char>>>) -> Option<Seq<Seq<char>>> {
    match rest {
        Some(r) => Some(segs + r),
        None => None,
    }
}

proof fn lemma_ident_end_bounds(s: Seq<char>, pos: int)
    requires
        0 <= pos <= s.len(),
    ensures
        pos <= ident_end(s, pos) <= s.len(),
    decreases s.len() - pos,
{
    if pos < s.len() && is_ident_char(s[pos]) {
        lemma_ident_end_bounds(s, pos + 1);
    }
}

fn ident_char(c: char) -> (r: bool)
    ensures
        r == is_ident_char(c),
{
    ('a' <= c && c <= 'z') || ('A' <= c && c <= 'Z') || ('0' <= c && c <= '9') || c == '_'
}

fn token_end_at(s: &str, n: usize, pos: usize) -> (e: usize)
    requires
        n == s@.len(),
        pos <= n,
    ensures
        e == token_end(s@, pos as int),
        pos <= e <= n,
{
    if pos < n && s.get_char(pos) == '*' {
        return pos + 1;
    }
    let mut j: usize = pos;
    while j < n && ident_char(s.get_char(j))
        invariant
            n == s@.len(),
            pos <= j <= n,
            ident_end(s@, pos as int) == ident_end(s@, j as int),
            pos < n ==> s@[pos as int] != '*',
        decreases n - j,
    {
        j = j + 1;
    }
    j
}

/// Whether a segment is the `*` segment.
fn is_star(s: &str) -> (r: bool)
    ensures
        r == (s@ == star()),
{
    if s.unicode_len() != 1 {
        return false;
    }
    let r = s.get_char(0) == '*';
    if r {
        assert(s@ =~= star());
    }
    r
}

/// Parses one selector expression such as `Windows::Foundation::Uri` or
/// `Windows::Foundation::*`.
pub fn parse_selector(expr: &str) -> (r: Result<Selector, SelectorError>)
    ensures
        match r {
            Ok(sel) => selector_spec(expr@) == Some((names(sel.path@), sel.quantifier)),
            Err(SelectorError::Syntax(e)) => selector_spec(expr@) is None && e@ == expr@,
            Err(_) => false,
        },
{
    let n = expr.unicode_len();
    let mut segs: Vec<String> = Vec::new();
    let mut pos: usize = 0;
    loop
        invariant_except_break
            segments_from(expr@, 0) == prepend(names(segs@), segments_from(expr@, pos as int)),
        invariant
            n == expr@.len(),
            pos <= n,
        ensures
            segments_from(expr@, 0) == Some(names(segs@)),
        decreases n - pos,
    {
        let e = token_end_at(expr, n, pos);
        if e == pos {
            return Err(SelectorError::Syntax(expr.to_owned()));
        }
        let seg = expr.substring_char(pos, e).to_owned();
        let ghost before = names(segs@);
        segs.push(seg);
        assert(names(segs@) =~= before + seq![expr@.subrange(pos as int, e as int)]);
        if e == n {
            assert(segments_from(expr@, 0) == Some(names(segs@)));
            break;
        }
        if e + 1 < n && expr.get_char(e) == ':' && expr.get_char(e + 1) == ':' {
            proof {
                match segments_from(expr@, e + 2) {
                    Some(rest) => {
                        assert(before + (seq![expr@.subrange(pos as int, e as int)] + rest) =~= names(segs@) + rest);
                    },
                    None => {},
                }
            }
            pos = e + 2;
        } else {
            return Err(SelectorError::Syntax(expr.to_owned()));
        }
    }
    let len = segs.len();
    if len < 2 {
        return Err(SelectorError::Syntax(expr.to_owned()));
    }
    let mut j: usize = 0;
    while j < len - 1
        invariant
            len == segs@.len(),
            len >= 2,
            j <= len - 1,
            segments_from(expr@, 0) == Some(names(segs@)),
            forall|k: int| 0 <= k < j ==> names(segs@)[k] != star(),
        decreases len - 1 - j,
    {
        if is_star(segs[j].as_str()) {
            assert(names(segs@)[j as int] == star());
            return Err(SelectorError::Syntax(expr.to_owned()));
        }
        j = j + 1;
    }
    if is_star(segs[len - 1].as_str()) {
        let ghost all = names(segs@);
        segs.pop();
        assert(names(segs@) =~= all.drop_last());
        Ok(Selector { path: segs, quantifier: Quantifier::Wildcard })
    } else {
        Ok(Selector { path: segs, quantifier: Quantifier::Exact })
    }
}

/// Whitespace between selectors.
pub open spec fn is_space(c: char) -> bool {
    c == ' ' || c == '\t' || c == '\n' || c == '\r'
}

/// The end of the run of whitespace that starts at `pos`, not going past `hi`.
pub open spec fn space_end(s: Seq<char>, pos: int, hi: int) -> int
    decreases hi - pos,
{
    if 0 <= pos < hi && hi <= s.len() && is_space(s[pos]) {
        space_end(s, pos + 1, hi)
    } else {
        pos
    }
}

/// The start of the run of whitespace that ends at `hi`, not going below `lo`.
pub open spec fn space_start(s: Seq<char>, lo: int, hi: int) -> int
    decreases hi - lo,
{
    if 0 <= lo < hi && hi <= s.len() && is_space(s[hi - 1]) {
        space_start(s, lo, hi - 1)
    } else {
        hi
    }
}

/// The end of the item that starts at `pos`: the next `,`, or the end of `s`.
pub open spec fn comma_end(s: Seq<char>, pos: int) -> int
    decreases s.len() - pos,
{
    if 0 <= pos < s.len() && s[pos] != ',' {
        comma_end(s, pos + 1)
    } else {
        pos
    }
}

/// The characters of `s` from `lo` to `hi` without leading or trailing whitespace.
pub open spec fn trimmed(s: Seq<char>, lo: int, hi: int) -> Seq<char> {
    let a = space_end(s, lo, hi);
    s.subrange(a, space_start(s, a, hi))
}

/// The comma-separated items of `s` from `pos` on, each trimmed.
pub open spec fn items_from(s: Seq<char>, pos: int) -> Seq<Seq<char>>
    decreases s.len() - pos,
{
    let e = comma_end(s, pos);
    if pos < 0 || e < pos || e >= s.len() {
        seq![trimmed(s, pos, e)]
    } else {
        seq![trimmed(s, pos, e)] + items_from(s, e + 1)
    }
}

/// The selector expressions of a comma-separated list; an empty last item
/// (a trailing comma, or a blank list) is not an expression.
pub open spec fn selector_list(s: Seq<char>) -> Seq<Seq<char>> {
    let items = items_from(s, 0);
    if items.last().len() == 0 {
        items.drop_last()
    } else {
        items
    }
}

fn space(c: char) -> (r: bool)
    ensures
        r == is_space(c),
{
    c == ' ' || c == '\t' || c == '\n' || c == '\r'
}

fn trim_item(s: &str, n: usize, lo: usize, hi: usize) -> (r: String)
    requires
        n == s@.len(),
        lo <= hi <= n,
    ensures
        r@ == trimmed(s@, lo as int, hi as int),
{
    let mut a: usize = lo;
    while a < hi && space(s.get_char(a))
        invariant
            n == s@.len(),
            lo <= a <= hi <= n,
            space_end(s@, lo as int, hi as int) == space_end(s@, a as int, hi as int),
        decreases hi - a,
    {
        a = a + 1;
    }
    let mut b: usize = hi;
    while b > a && space(s.get_char(b - 1))
        invariant
            n == s@.len(),
            lo <= a <= b <= hi <= n,
            a == space_end(s@, lo as int, hi as int),
            space_start(s@, a as int, hi as int) == space_start(s@, a as int, b as int),
        decreases b - a,
    {
        b = b - 1;
    }
    s.substring_char(a, b).to_owned()
}

/// Splits a comma-separated list of selector expressions, such as the
/// input `Windows::Foundation::*, Windows::Storage::StorageFile`, into its
/// expressions, each without surrounding whitespace.
pub fn split_selectors(input: &str) -> (r: Vec<String>)
    ensures
        names(r@) == selector_list(input@),
{
    let n = input.unicode_len();
    let mut items: Vec<String> = Vec::new();
    let mut pos: usize = 0;
    loop
        invariant_except_break
            items_from(input@, 0) == names(items@) + items_from(input@, pos as int),
        invariant
            n == input@.len(),
            pos <= n,
        ensures
            items_from(input@, 0) == names(items@),
        decreases n - pos,
    {
        let mut e: usize = pos;
        while e < n && input.get_char(e) != ','
            invariant
                n == input@.len(),
                pos <= e <= n,
                comma_end(input@, pos as int) == comma_end(input@, e as int),
            decreases n - e,
        {
            e = e + 1;
        }
        let item = trim_item(input, n, pos, e);
        let ghost before = names(items@);
        items.push(item);
        assert(names(items@) =~= before + seq![trimmed(input@, pos as int, e as int)]);
        if e == n {
            assert(items_from(input@, 0) =~= names(items@));
            break;
        }
        assert(items_from(input@, 0) =~= names(items@) + items_from(input@, e + 1));
        pos = e + 1;
    }
    let len = items.len();
    assert(names(items@).len() == len);
    if len > 0 && items[len - 1].unicode_len() == 0 {
        let ghost all = names(items@);
        items.pop();
        assert(names(items@) =~= all.drop_last());
    }
    items
}

} // verus!
