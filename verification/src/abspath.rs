//! Absolute paths and lexical path normalization.
//!
//! A path that exists is canonicalized by the operating system
//! (resolving symlinks); one that does not exist yet is joined onto a
//! base directory and normalized purely lexically, collapsing `.` and
//! `..` components without touching the filesystem.
//!
//! All verified reasoning about paths assumes Unix-style paths:
//! `/`-separated strings whose canonical and absolute forms begin
//! with `/`. Windows canonical paths (verbatim `\\?\` prefixes) are
//! outside this model.

use vstd::prelude::*;
use crate::fsio::fs_canonicalize;
use crate::strutil::{chars_range, chars_to_string, spec_split, split_str, str_to_chars};

verus! {

/// Whether a path string is absolute.
pub open spec fn is_absolute(s: Seq<char>) -> bool {
    s.len() > 0 && s[0] == '/'
}

/// Whether a piece of a split path is a real component: separators
/// produce empty pieces, and `.` components are dropped.
pub open spec fn keep_component(c: Seq<char>) -> bool {
    c.len() > 0 && c != seq!['.']
}

/// The components of a path string: the pieces between `/` separators,
/// with empty and `.` pieces dropped.
pub open spec fn path_components(s: Seq<char>) -> Seq<Seq<char>> {
    spec_split(s, '/').filter(|c: Seq<char>| keep_component(c))
}

/// Collapses `..` components against the components before them. A
/// `..` pops the previous component if there is one and otherwise
/// stays (the root has no parent to pop into).
pub open spec fn collapse_components(cs: Seq<Seq<char>>) -> Seq<Seq<char>>
    decreases cs.len(),
{
    if cs.len() == 0 {
        Seq::empty()
    } else {
        let pre = collapse_components(cs.drop_last());
        let c = cs.last();
        if c == seq!['.', '.'] {
            if pre.len() > 0 {
                pre.drop_last()
            } else {
                pre.push(c)
            }
        } else {
            pre.push(c)
        }
    }
}

/// Renders components as an absolute path string: `/` for no
/// components, otherwise `/` before each component.
pub open spec fn render_abs(cs: Seq<Seq<char>>) -> Seq<char>
    decreases cs.len(),
{
    if cs.len() == 0 {
        seq!['/']
    } else if cs.len() == 1 {
        seq!['/'] + cs[0]
    } else {
        render_abs(cs.drop_last()) + seq!['/'] + cs.last()
    }
}

/// The lexical normal form of an absolute path string.
pub open spec fn spec_normalize(s: Seq<char>) -> Seq<char> {
    render_abs(collapse_components(path_components(s)))
}

/// Joining a path onto an absolute base: an absolute path stands
/// alone, a relative one goes below the base.
pub open spec fn spec_join(base: Seq<char>, p: Seq<char>) -> Seq<char> {
    if is_absolute(p) {
        p
    } else {
        base + seq!['/'] + p
    }
}

/// What resolving a path against a base directory yields lexically.
pub open spec fn spec_resolve(base: Seq<char>, p: Seq<char>) -> Seq<char> {
    spec_normalize(spec_join(base, p))
}

/// A rendered path is always absolute.
pub proof fn lemma_render_abs_absolute(cs: Seq<Seq<char>>)
    ensures
        is_absolute(render_abs(cs)),
    decreases cs.len(),
{
    if cs.len() <= 1 {
    } else {
        lemma_render_abs_absolute(cs.drop_last());
    }
}

/// The components of joined paths are the components of the parts.
pub proof fn lemma_components_join(base: Seq<char>, p: Seq<char>)
    ensures
        path_components(base + seq!['/'] + p) =~= path_components(base) + path_components(p),
{
    broadcast use vstd::seq_lib::group_filter_ensures;

    crate::strutil::lemma_split_concat(base, p, '/');
}

/// A single `.` has no components.
pub proof fn lemma_cur_dir_no_components()
    ensures
        path_components(seq!['.']) =~= Seq::<Seq<char>>::empty(),
{
    reveal_with_fuel(Seq::<Seq<char>>::filter, 3);
    let s = seq!['.'];
    assert(s.drop_first() =~= Seq::<char>::empty());
    assert(spec_split(Seq::<char>::empty(), '/') == seq![Seq::<char>::empty()]);
    let pieces = spec_split(s, '/');
    assert(seq!['.'] + Seq::<char>::empty() =~= seq!['.']);
    assert(pieces =~= seq![seq!['.']]);
    assert(pieces.drop_last() =~= Seq::<Seq<char>>::empty());
    assert(!keep_component(pieces.last()));
}

/// Resolving `.` against a base directory yields the normalized base:
/// a trailing current-directory component changes nothing.
pub proof fn lemma_resolve_cur_dir(base: Seq<char>)
    requires
        is_absolute(base),
    ensures
        spec_resolve(base, seq!['.']) == spec_normalize(base),
{
    lemma_components_join(base, seq!['.']);
    lemma_cur_dir_no_components();
    assert(path_components(base + seq!['/'] + seq!['.']) =~= path_components(base));
}

/// Resolution ignores a leading `./`: for any relative path `p`,
/// resolving `./p` equals resolving `p`. Together with
/// [`lemma_resolve_cur_dir`] this makes lexical resolution
/// insensitive to `.` components, so spellings such as `././.` and
/// `.` resolve to the same absolute path.
pub proof fn lemma_resolve_ignores_cur_prefix(base: Seq<char>, p: Seq<char>)
    requires
        is_absolute(base),
        !is_absolute(p),
    ensures
        spec_resolve(base, seq!['.', '/'] + p) == spec_resolve(base, p),
{
    let dotted = seq!['.', '/'] + p;
    assert(dotted[0] == '.');
    assert(!is_absolute(dotted));
    assert(base + seq!['/'] + dotted =~= base + seq!['/'] + (seq!['.'] + seq!['/'] + p));
    lemma_components_join(base, seq!['.'] + seq!['/'] + p);
    lemma_components_join(seq!['.'], p);
    lemma_cur_dir_no_components();
    lemma_components_join(base, p);
    assert(path_components(base + seq!['/'] + dotted) =~= path_components(
        base + seq!['/'] + p,
    ));
}

/// No piece of a split string contains the separator.
proof fn lemma_split_pieces_have_no_sep(s: Seq<char>, sep: char)
    ensures
        forall|i: int|
            0 <= i < spec_split(s, sep).len() ==> !(#[trigger] spec_split(s, sep)[i]).contains(
                sep,
            ),
    decreases s.len(),
{
    if s.len() == 0 {
    } else if s[0] == sep {
        lemma_split_pieces_have_no_sep(s.drop_first(), sep);
    } else {
        lemma_split_pieces_have_no_sep(s.drop_first(), sep);
        let rest = spec_split(s.drop_first(), sep);
        crate::strutil::lemma_split_len(s.drop_first(), sep);
        let head = seq![s[0]] + rest[0];
        assert forall|j: int| 0 <= j < head.len() implies head[j] != sep by {
            if j > 0 {
                assert(rest[0][j - 1] != sep);
            }
        }
        assert(!head.contains(sep));
    }
}

/// Filtering keeps only separator-free pieces separator-free.
proof fn lemma_filter_keeps_no_sep(pieces: Seq<Seq<char>>, pred: spec_fn(Seq<char>) -> bool, sep: char)
    requires
        forall|i: int| 0 <= i < pieces.len() ==> !(#[trigger] pieces[i]).contains(sep),
    ensures
        forall|i: int|
            0 <= i < pieces.filter(pred).len() ==> !(#[trigger] pieces.filter(pred)[i]).contains(
                sep,
            ),
    decreases pieces.len(),
{
    reveal(Seq::filter);
    if pieces.len() > 0 {
        assert forall|i: int|
            0 <= i < pieces.drop_last().len() implies !(#[trigger] pieces.drop_last()[i]).contains(
            sep,
        ) by {
            assert(pieces.drop_last()[i] == pieces[i]);
        }
        lemma_filter_keeps_no_sep(pieces.drop_last(), pred, sep);
        let out = pieces.filter(pred);
        let sub = pieces.drop_last().filter(pred);
        assert forall|i: int| 0 <= i < out.len() implies !(#[trigger] out[i]).contains(sep) by {
            if pred(pieces.last()) {
                if i < out.len() - 1 {
                    assert(out[i] == sub[i]);
                } else {
                    assert(out[i] == pieces.last());
                    assert(pieces[pieces.len() - 1] == pieces.last());
                }
            } else {
                assert(out[i] == sub[i]);
            }
        }
    }
}

/// Every component of a path is non-empty, is not `.`, and contains
/// no separator.
proof fn lemma_components_clean(s: Seq<char>)
    ensures
        forall|i: int|
            0 <= i < path_components(s).len() ==> keep_component(#[trigger] path_components(s)[i])
                && !path_components(s)[i].contains('/'),
{
    let pred = |c: Seq<char>| keep_component(c);
    lemma_split_pieces_have_no_sep(s, '/');
    lemma_filter_keeps_no_sep(spec_split(s, '/'), pred, '/');
    spec_split(s, '/').filter_lemma(pred);
}

/// Collapsing clean components yields clean components, with `..`
/// possible only as the very first one.
proof fn lemma_collapse_elements(cs: Seq<Seq<char>>)
    requires
        forall|i: int|
            0 <= i < cs.len() ==> keep_component(#[trigger] cs[i]) && !cs[i].contains('/'),
    ensures
        forall|i: int|
            0 <= i < collapse_components(cs).len() ==> keep_component(
                #[trigger] collapse_components(cs)[i],
            ) && !collapse_components(cs)[i].contains('/'),
        forall|i: int|
            1 <= i < collapse_components(cs).len() ==> #[trigger] collapse_components(cs)[i]
                != seq!['.', '.'],
    decreases cs.len(),
{
    if cs.len() > 0 {
        assert forall|i: int|
            0 <= i < cs.drop_last().len() implies keep_component(#[trigger] cs.drop_last()[i])
            && !cs.drop_last()[i].contains('/') by {
            assert(cs.drop_last()[i] == cs[i]);
        }
        lemma_collapse_elements(cs.drop_last());
        let pre = collapse_components(cs.drop_last());
        let c = cs.last();
        assert(keep_component(c) && !c.contains('/'));
        if c == seq!['.', '.'] && pre.len() > 0 {
            assert forall|i: int|
                0 <= i < pre.drop_last().len() implies keep_component(#[trigger] pre.drop_last()[i])
                && !pre.drop_last()[i].contains('/') by {
                assert(pre.drop_last()[i] == pre[i]);
            }
        }
    }
}

/// Collapsing is the identity on components that hold `..` only in
/// first position: there is nothing left to collapse.
proof fn lemma_collapse_identity(cs: Seq<Seq<char>>)
    requires
        forall|i: int| 1 <= i < cs.len() ==> #[trigger] cs[i] != seq!['.', '.'],
    ensures
        collapse_components(cs) == cs,
    decreases cs.len(),
{
    if cs.len() == 0 {
        assert(collapse_components(cs) =~= cs);
    } else if cs.len() == 1 {
        if cs.last() == seq!['.', '.'] {
            assert(collapse_components(cs.drop_last()) =~= Seq::<Seq<char>>::empty());
            assert(collapse_components(cs) =~= cs);
        } else {
            assert(collapse_components(cs.drop_last()) =~= Seq::<Seq<char>>::empty());
            assert(collapse_components(cs) =~= cs);
        }
    } else {
        assert forall|i: int| 1 <= i < cs.drop_last().len() implies #[trigger] cs.drop_last()[i]
            != seq!['.', '.'] by {
            assert(cs.drop_last()[i] == cs[i]);
        }
        lemma_collapse_identity(cs.drop_last());
        assert(cs.last() != seq!['.', '.']);
        assert(collapse_components(cs) =~= cs.drop_last().push(cs.last()));
        assert(cs.drop_last().push(cs.last()) =~= cs);
    }
}

/// Rendering clean components and reading them back yields the same
/// components.
proof fn lemma_components_of_render(cs: Seq<Seq<char>>)
    requires
        forall|i: int|
            0 <= i < cs.len() ==> keep_component(#[trigger] cs[i]) && !cs[i].contains('/'),
    ensures
        path_components(render_abs(cs)) == cs,
    decreases cs.len(),
{
    let pred = |c: Seq<char>| keep_component(c);
    broadcast use vstd::seq_lib::group_filter_ensures;
    reveal_with_fuel(Seq::<Seq<char>>::filter, 3);

    if cs.len() == 0 {
        let s = seq!['/'];
        assert(s.drop_first() =~= Seq::<char>::empty());
        assert(spec_split(Seq::<char>::empty(), '/') == seq![Seq::<char>::empty()]);
        assert(spec_split(s, '/') =~= seq![Seq::<char>::empty(), Seq::<char>::empty()]);
        assert(path_components(s) =~= cs);
    } else if cs.len() == 1 {
        let c = cs[0];
        assert(render_abs(cs) =~= Seq::<char>::empty() + seq!['/'] + c);
        crate::strutil::lemma_split_concat(Seq::<char>::empty(), c, '/');
        assert forall|j: int| 0 <= j < c.len() implies c[j] != '/' by {
            if c[j] == '/' {
                assert(c.contains('/'));
            }
        }
        crate::strutil::lemma_split_no_sep(c, '/');
        assert(spec_split(render_abs(cs), '/') =~= seq![Seq::<char>::empty(), c]);
        assert(path_components(render_abs(cs)) =~= cs);
    } else {
        assert forall|i: int|
            0 <= i < cs.drop_last().len() implies keep_component(#[trigger] cs.drop_last()[i])
            && !cs.drop_last()[i].contains('/') by {
            assert(cs.drop_last()[i] == cs[i]);
        }
        lemma_components_of_render(cs.drop_last());
        let c = cs.last();
        assert(render_abs(cs) == render_abs(cs.drop_last()) + seq!['/'] + c);
        crate::strutil::lemma_split_concat(render_abs(cs.drop_last()), c, '/');
        assert forall|j: int| 0 <= j < c.len() implies c[j] != '/' by {
            if c[j] == '/' {
                assert(c.contains('/'));
            }
        }
        crate::strutil::lemma_split_no_sep(c, '/');
        assert(spec_split(render_abs(cs), '/') == spec_split(render_abs(cs.drop_last()), '/')
            + seq![c]);
        assert(seq![c].filter(pred) =~= seq![c]);
        assert(path_components(render_abs(cs)) =~= path_components(render_abs(cs.drop_last()))
            + seq![c]);
        assert(path_components(render_abs(cs)) =~= cs);
    }
}

/// Normalization is idempotent: normalizing an already normalized
/// path changes nothing, so however a path was spelled, its normal
/// form is a fixed point.
pub proof fn lemma_normalize_idempotent(s: Seq<char>)
    ensures
        spec_normalize(spec_normalize(s)) == spec_normalize(s),
{
    let comps = path_components(s);
    lemma_components_clean(s);
    lemma_collapse_elements(comps);
    let out = collapse_components(comps);
    lemma_components_of_render(out);
    lemma_collapse_identity(out);
}

/// Whether a path string is absolute.
pub fn str_is_absolute(s: &str) -> (r: bool)
    ensures
        r == is_absolute(s@),
{
    if s.is_empty() {
        false
    } else {
        s.get_char(0) == '/'
    }
}

/// Whether a component string is `.`.
fn component_is_cur(s: &String) -> (r: bool)
    ensures
        r == (s@ == seq!['.']),
{
    let st = s.as_str();
    if st.unicode_len() == 1 && st.get_char(0) == '.' {
        proof {
            assert(s@ =~= seq!['.']);
        }
        true
    } else {
        proof {
            assert(s@ != seq!['.']);
        }
        false
    }
}

/// Whether a component string is `..`.
fn component_is_parent(s: &String) -> (r: bool)
    ensures
        r == (s@ == seq!['.', '.']),
{
    let st = s.as_str();
    if st.unicode_len() == 2 && st.get_char(0) == '.' && st.get_char(1) == '.' {
        proof {
            assert(s@ =~= seq!['.', '.']);
        }
        true
    } else {
        proof {
            assert(s@ != seq!['.', '.']);
        }
        false
    }
}

/// Lexically normalizes an absolute path: drops empty and `.`
/// components and collapses each `..` against the component before
/// it, never popping past the root.
pub fn remove_midcomps(path: &str) -> (r: String)
    requires
        is_absolute(path@),
    ensures
        r@ == spec_normalize(path@),
        is_absolute(r@),
{
    let comps = split_str(path, '/');
    let ghost all = spec_split(path@, '/');
    let ghost pred = |c: Seq<char>| keep_component(c);
    let n = comps.len();
    let mut stack: Vec<String> = Vec::new();
    let mut i: usize = 0;
    proof {
        reveal(Seq::filter);
        assert(all.take(0) =~= Seq::<Seq<char>>::empty());
        assert(stack.deep_view() =~= collapse_components(all.take(0).filter(pred)));
    }
    while i < n
        invariant
            n == comps@.len(),
            comps.deep_view() == all,
            all == spec_split(path@, '/'),
            pred == (|c: Seq<char>| keep_component(c)),
            i <= n,
            stack.deep_view() == collapse_components(all.take(i as int).filter(pred)),
        decreases n - i,
    {
        let c = &comps[i];
        proof {
            reveal(Seq::filter);
            assert(comps.deep_view()[i as int] == comps@[i as int]@);
            assert(all.take(i + 1).drop_last() =~= all.take(i as int));
            assert(all.take(i + 1).last() == all[i as int]);
            assert(all.take(i + 1) =~= all.take(i as int).push(all[i as int]));
        }
        let empty = c.as_str().is_empty();
        let cur = component_is_cur(c);
        if empty || cur {
            proof {
                assert(!pred(all[i as int]));
                assert(all.take(i + 1).filter(pred) =~= all.take(i as int).filter(pred));
            }
        } else {
            proof {
                assert(pred(all[i as int]));
                assert(all.take(i + 1).filter(pred) =~= all.take(i as int).filter(pred).push(
                    all[i as int],
                ));
                assert(all.take(i + 1).filter(pred).drop_last() =~= all.take(i as int).filter(
                    pred,
                ));
            }
            if component_is_parent(c) {
                if stack.len() > 0 {
                    let ghost old_dv = stack.deep_view();
                    stack.pop();
                    proof {
                        assert(stack.deep_view() =~= old_dv.drop_last());
                    }
                } else {
                    let ghost old_dv = stack.deep_view();
                    let ghost cv = comps@[i as int]@;
                    stack.push(c.clone());
                    proof {
                        assert(stack.deep_view() =~= old_dv.push(cv));
                    }
                }
            } else {
                let ghost old_dv = stack.deep_view();
                let ghost cv = comps@[i as int]@;
                stack.push(c.clone());
                proof {
                    assert(stack.deep_view() =~= old_dv.push(cv));
                }
            }
        }
        i = i + 1;
    }
    proof {
        assert(all.take(n as int) =~= all);
    }
    let ghost target = collapse_components(all.filter(pred));
    let m = stack.len();
    if m == 0 {
        let ghost e = Seq::<Seq<char>>::empty();
        proof {
            assert(target =~= e);
            reveal_strlit("/");
            assert("/"@ =~= seq!['/']);
        }
        return "/".to_owned();
    }
    let mut out = String::new();
    let mut j: usize = 0;
    while j < m
        invariant
            m == stack@.len(),
            m >= 1,
            stack.deep_view() == target,
            j <= m,
            j == 0 ==> out@ =~= Seq::<char>::empty(),
            j >= 1 ==> out@ == render_abs(target.take(j as int)),
        decreases m - j,
    {
        out.push('/');
        out.append(stack[j].as_str());
        proof {
            assert(stack.deep_view()[j as int] == stack@[j as int]@);
            assert(target.take(j + 1).drop_last() =~= target.take(j as int));
            assert(target.take(j + 1).last() == target[j as int]);
            if j == 0 {
                assert(out@ =~= seq!['/'] + target[0]);
            } else {
                assert(out@ =~= render_abs(target.take(j as int)) + seq!['/'] + target[j as int]);
            }
        }
        j = j + 1;
    }
    proof {
        assert(target.take(m as int) =~= target);
        lemma_render_abs_absolute(target);
    }
    out
}

/// The string with its trailing `/` characters removed.
pub open spec fn strip_trailing_slashes(s: Seq<char>) -> Seq<char>
    decreases s.len(),
{
    if s.len() > 0 && s.last() == '/' {
        strip_trailing_slashes(s.drop_last())
    } else {
        s
    }
}

/// The index of the last `/` in the string, or `-1` if there is none.
pub open spec fn last_slash_index(s: Seq<char>) -> int
    decreases s.len(),
{
    if s.len() == 0 {
        -1
    } else if s.last() == '/' {
        s.len() - 1
    } else {
        last_slash_index(s.drop_last())
    }
}

/// The lexical parent of a path string: the path without its final
/// component, as `std::path::Path::parent` computes it for
/// `/`-separated paths. The root and the empty path have no parent; a
/// bare file name's parent is the empty path.
pub open spec fn spec_parent(s: Seq<char>) -> Option<Seq<char>> {
    let t = strip_trailing_slashes(s);
    if t.len() == 0 {
        None
    } else {
        let j = last_slash_index(t);
        if j < 0 {
            Some(Seq::empty())
        } else {
            let p = strip_trailing_slashes(t.take(j));
            if p.len() == 0 {
                Some(seq!['/'])
            } else {
                Some(p)
            }
        }
    }
}

/// The lexical parent of a path: the path without its final
/// component.
pub fn parent_of(path: &str) -> (r: Option<String>)
    ensures
        match r {
            Some(p) => spec_parent(path@) == Some(p@),
            None => spec_parent(path@) is None,
        },
{
    let chars = str_to_chars(path);
    let n = chars.len();
    proof {
        assert(path@.take(n as int) =~= path@);
    }
    let mut e: usize = n;
    while e > 0 && chars[e - 1] == '/'
        invariant
            n == chars@.len(),
            chars@ == path@,
            e <= n,
            strip_trailing_slashes(path@) == strip_trailing_slashes(path@.take(e as int)),
        decreases e,
    {
        proof {
            assert(path@.take(e as int).drop_last() =~= path@.take(e - 1));
        }
        e = e - 1;
    }
    let ghost t = strip_trailing_slashes(path@);
    proof {
        assert(t == path@.take(e as int));
    }
    if e == 0 {
        proof {
            assert(t.len() == 0);
        }
        return None;
    }
    let mut j: usize = e;
    while j > 0 && chars[j - 1] != '/'
        invariant
            n == chars@.len(),
            chars@ == path@,
            j <= e <= n,
            t == path@.take(e as int),
            last_slash_index(t) == last_slash_index(path@.take(j as int)),
        decreases j,
    {
        proof {
            assert(path@.take(j as int).drop_last() =~= path@.take(j - 1));
        }
        j = j - 1;
    }
    if j == 0 {
        proof {
            assert(last_slash_index(t) == -1);
        }
        return Some(String::new());
    }
    proof {
        assert(last_slash_index(path@.take(j as int)) == j - 1);
        assert(t.take(j - 1) =~= path@.take(j - 1));
    }
    let mut e2: usize = j - 1;
    while e2 > 0 && chars[e2 - 1] == '/'
        invariant
            n == chars@.len(),
            chars@ == path@,
            e2 <= n,
            strip_trailing_slashes(path@.take(j as int - 1)) == strip_trailing_slashes(
                path@.take(e2 as int),
            ),
            j >= 1,
            j - 1 <= n,
        decreases e2,
    {
        proof {
            assert(path@.take(e2 as int).drop_last() =~= path@.take(e2 - 1));
        }
        e2 = e2 - 1;
    }
    let ghost p = strip_trailing_slashes(path@.take(j as int - 1));
    proof {
        assert(p == path@.take(e2 as int));
    }
    if e2 == 0 {
        proof {
            reveal_strlit("/");
            assert("/"@ =~= seq!['/']);
        }
        return Some("/".to_owned());
    }
    let piece = chars_range(chars.as_slice(), 0, e2);
    proof {
        assert(piece@ =~= path@.take(e2 as int));
    }
    Some(chars_to_string(piece))
}

/// An absolute file path. A path that existed when it was built is in
/// the operating system's canonical form; one that did not is in
/// lexical normal form relative to the base directory it was resolved
/// against. Equality is by the final normalized string, not by the
/// original spelling.
#[derive(Debug, Clone, PartialEq, Eq, Hash, PartialOrd, Ord)]
pub struct AbsPathBuf {
    path: String,
}

impl View for AbsPathBuf {
    type V = Seq<char>;

    closed spec fn view(&self) -> Seq<char> {
        self.path@
    }
}

impl AbsPathBuf {
    /// The invariant every value of this type satisfies.
    pub open spec fn wf(&self) -> bool {
        is_absolute(self@)
    }

    /// Resolves a path. If the path exists the operating system
    /// canonicalizes it, following symlinks; otherwise it is joined
    /// onto `cwd` and normalized lexically, so resolution never fails
    /// for a path that does not exist yet.
    pub fn new(path: &str, cwd: &AbsPathBuf) -> (r: Self)
        requires
            cwd.wf(),
        ensures
            r.wf(),
    {
        match fs_canonicalize(path) {
            Ok(c) => AbsPathBuf { path: c },
            Err(_) => Self::resolve_lexical(path, cwd),
        }
    }

    /// Resolves a path against a base directory purely lexically,
    /// without consulting the filesystem.
    pub fn resolve_lexical(path: &str, cwd: &AbsPathBuf) -> (r: Self)
        requires
            cwd.wf(),
        ensures
            r.wf(),
            r@ == spec_resolve(cwd@, path@),
    {
        if str_is_absolute(path) {
            AbsPathBuf { path: remove_midcomps(path) }
        } else {
            let mut joined = cwd.path.clone();
            joined.push('/');
            joined.append(path);
            proof {
                assert(joined@ =~= cwd@ + seq!['/'] + path@);
            }
            AbsPathBuf { path: remove_midcomps(joined.as_str()) }
        }
    }

    /// Wraps a string that is already an absolute path; `None` if it
    /// is not absolute.
    pub fn from_absolute(path: String) -> (r: Option<Self>)
        ensures
            match r {
                Some(p) => p@ == path@ && p.wf(),
                None => !is_absolute(path@),
            },
    {
        if str_is_absolute(path.as_str()) {
            Some(AbsPathBuf { path })
        } else {
            None
        }
    }

    /// The path as a string.
    pub fn as_str(&self) -> (r: &str)
        ensures
            r@ == self@,
    {
        self.path.as_str()
    }

    /// An exact copy.
    pub fn duplicate(&self) -> (r: Self)
        ensures
            r@ == self@,
    {
        AbsPathBuf { path: self.path.clone() }
    }

    /// Whether two paths are equal as normalized strings.
    pub fn same_as(&self, other: &Self) -> (r: bool)
        ensures
            r == (self@ == other@),
    {
        self.path.eq(&other.path)
    }
}

} // verus!
