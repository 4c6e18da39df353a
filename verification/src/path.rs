//! Paths as text with `/` between their components.
//!
//! Two paths are compared by their components, never by their characters:
//! `/data/x` lies under `/data` but not under `/dat`, repeated separators
//! count once, and a component `.` counts only at the very start.

use crate::text::{
    append_chars, chars_equal, chars_to_string, first_index, lemma_first_index,
    lemma_first_index_is, replace_char, replace_in_chars, str_chars, trim, trim_chars,
};
use vstd::prelude::*;

verus! {

/// The pieces of `s` between its separators, empty ones included: one more
/// than `s` has separators.
pub open spec fn segments(s: Seq<char>) -> Seq<Seq<char>>
    decreases s.len(),
{
    if s.len() == 0 {
        seq![Seq::<char>::empty()]
    } else {
        let init = segments(s.drop_last());
        if s.last() == '/' {
            init.push(Seq::<char>::empty())
        } else {
            init.drop_last().push(init.last().push(s.last()))
        }
    }
}

/// A segment that names something: not empty and not `.`.
pub open spec fn is_name(segment: Seq<char>) -> bool {
    segment.len() > 0 && !(segment =~= seq!['.'])
}

/// The segments that name something, in their order.
pub open spec fn keep_names(segs: Seq<Seq<char>>) -> Seq<Seq<char>>
    decreases segs.len(),
{
    if segs.len() == 0 {
        segs
    } else if is_name(segs.last()) {
        keep_names(segs.drop_last()).push(segs.last())
    } else {
        keep_names(segs.drop_last())
    }
}

/// How a path starts: with the root `/`, with the directory `.` it is
/// relative to, or with neither.
pub open spec fn head(s: Seq<char>) -> Seq<Seq<char>> {
    if s.len() > 0 && s[0] == '/' {
        seq![seq!['/']]
    } else if s.len() > 0 && s[0] == '.' && (s.len() == 1 || s[1] == '/') {
        seq![seq!['.']]
    } else {
        Seq::empty()
    }
}

/// The components of a path: its start, then its names.
pub open spec fn path_components(s: Seq<char>) -> Seq<Seq<char>> {
    head(s) + keep_names(segments(s))
}

/// The names with one separator between each two.
pub open spec fn join_names(names: Seq<Seq<char>>) -> Seq<char>
    decreases names.len(),
{
    if names.len() == 0 {
        Seq::empty()
    } else if names.len() == 1 {
        names[0]
    } else {
        join_names(names.drop_last()) + seq!['/'] + names.last()
    }
}

/// `s`, with a separator at its end if it has none there.
pub open spec fn with_slash(s: Seq<char>) -> Seq<char> {
    if s.len() > 0 && s.last() == '/' {
        s
    } else {
        s.push('/')
    }
}

/// `p` itself where it starts at the root, else `p` below `base`.
pub open spec fn join_onto(base: Seq<char>, p: Seq<char>) -> Seq<char> {
    if p.len() > 0 && p[0] == '/' {
        p
    } else {
        with_slash(base) + p
    }
}

/// A path as the functions here read it: `\` stands for `/`, and white space
/// around the text does not count.
pub open spec fn normalized(s: Seq<char>) -> Seq<char> {
    trim(replace_char(s, '\\', '/'))
}

/// A path that starts with `./`.
pub open spec fn starts_with_dot_slash(p: Seq<char>) -> bool {
    p.len() >= 2 && p[0] == '.' && p[1] == '/'
}

/// Whether the components of `parent` are the first components of `child`.
pub open spec fn lies_under(child: Seq<char>, parent: Seq<char>) -> bool {
    path_components(parent).is_prefix_of(path_components(child))
}

/// The path of `child` relative to `parent`, where `child` lies under
/// `parent`: `./` before the names that `child` has behind the components of
/// `parent`. Where what is left of `child` starts at the root (a rooted
/// `child` under a `parent` without components), it is the path of `child`
/// as it stands.
pub open spec fn relative_path(child: Seq<char>, parent: Seq<char>) -> Option<Seq<char>> {
    let rest = path_components(child).skip(path_components(parent).len() as int);
    if !lies_under(child, parent) {
        None
    } else if rest.len() > 0 && rest[0] =~= seq!['/'] {
        Some(child)
    } else {
        Some(seq!['.', '/'] + join_names(rest))
    }
}

/// The path that `relative` names below `parent`.
pub open spec fn full_path(relative: Seq<char>, parent: Seq<char>) -> Seq<char> {
    join_onto(normalized(parent), normalized(relative))
}

/// The character sequences that the vectors hold.
pub open spec fn vec_views(v: Seq<Vec<char>>) -> Seq<Seq<char>> {
    Seq::new(v.len(), |i: int| v[i]@)
}

pub proof fn lemma_segments_push(s: Seq<char>, c: char)
    ensures
        segments(s).len() >= 1,
        c == '/' ==> segments(s.push(c)) == segments(s).push(Seq::<char>::empty()),
        c != '/' ==> segments(s.push(c)) == segments(s).drop_last().push(segments(s).last().push(c)),
    decreases s.len(),
{
    assert(s.push(c).drop_last() =~= s);
    if s.len() > 0 {
        lemma_segments_push(s.drop_last(), s.last());
        assert(s.drop_last().push(s.last()) =~= s);
    }
}

pub proof fn lemma_keep_names_push(segs: Seq<Seq<char>>, g: Seq<char>)
    ensures
        keep_names(segs.push(g)) == if is_name(g) {
            keep_names(segs).push(g)
        } else {
            keep_names(segs)
        },
{
    assert(segs.push(g).drop_last() =~= segs);
}

fn is_name_chars(segment: &Vec<char>) -> (r: bool)
    ensures
        r == is_name(segment@),
{
    segment.len() > 0 && !(segment.len() == 1 && segment[0] == '.')
}

/// Splits a path into its components.
pub fn components_of(v: &Vec<char>) -> (r: Vec<Vec<char>>)
    ensures
        vec_views(r@) == path_components(v@),
{
    let mut names: Vec<Vec<char>> = Vec::new();
    if v.len() > 0 && v[0] == '/' {
        let mut root: Vec<char> = Vec::new();
        root.push('/');
        names.push(root);
    } else if v.len() > 0 && v[0] == '.' && (v.len() == 1 || v[1] == '/') {
        let mut dot: Vec<char> = Vec::new();
        dot.push('.');
        names.push(dot);
    }
    assert(vec_views(names@) =~= head(v@));
    let mut current: Vec<char> = Vec::new();
    let mut i: usize = 0;
    assert(v@.take(0) =~= Seq::<char>::empty());
    assert(segments(v@.take(0)).drop_last() =~= Seq::<Seq<char>>::empty());
    while i < v.len()
        invariant
            i <= v.len(),
            segments(v@.take(i as int)).len() >= 1,
            vec_views(names@) == head(v@) + keep_names(segments(v@.take(i as int)).drop_last()),
            current@ == segments(v@.take(i as int)).last(),
        decreases v.len() - i,
    {
        let c = v[i];
        let ghost before = v@.take(i as int);
        let ghost segs = segments(before);
        proof {
            assert(v@.take(i + 1) =~= before.push(c));
            lemma_segments_push(before, c);
        }
        if c == '/' {
            proof {
                assert(segs.push(Seq::<char>::empty()).drop_last() =~= segs);
                assert(segs =~= segs.drop_last().push(segs.last()));
                lemma_keep_names_push(segs.drop_last(), segs.last());
            }
            if is_name_chars(&current) {
                let ghost old_names = vec_views(names@);
                names.push(current);
                assert(vec_views(names@) =~= old_names.push(segs.last()));
            }
            current = Vec::new();
        } else {
            current.push(c);
            assert(segs.drop_last().push(segs.last().push(c)).drop_last() =~= segs.drop_last());
        }
        i += 1;
    }
    proof {
        assert(v@.take(v.len() as int) =~= v@);
        let segs = segments(v@);
        assert(segs =~= segs.drop_last().push(segs.last()));
        lemma_keep_names_push(segs.drop_last(), segs.last());
    }
    if is_name_chars(&current) {
        let ghost old_names = vec_views(names@);
        names.push(current);
        assert(vec_views(names@) =~= old_names.push(segments(v@).last()));
    }
    names
}

/// Whether the first `n` components of `whole` are the components `part`.
fn starts_with_components(whole: &Vec<Vec<char>>, part: &Vec<Vec<char>>) -> (r: bool)
    ensures
        r == vec_views(part@).is_prefix_of(vec_views(whole@)),
{
    if part.len() > whole.len() {
        return false;
    }
    let ghost w = vec_views(whole@);
    let ghost p = vec_views(part@);
    let mut i: usize = 0;
    while i < part.len()
        invariant
            i <= part.len() <= whole.len(),
            w == vec_views(whole@),
            p == vec_views(part@),
            forall|j: int| 0 <= j < i ==> #[trigger] w[j] == p[j],
        decreases part.len() - i,
    {
        if !chars_equal(&whole[i], &part[i]) {
            assert(w[i as int] != p[i as int]);
            assert(w.subrange(0, p.len() as int)[i as int] == w[i as int]);
            return false;
        }
        i += 1;
    }
    assert(p =~= w.subrange(0, p.len() as int));
    true
}

/// Whether two paths have the same components.
pub fn same_path(a: &str, b: &str) -> (r: bool)
    ensures
        r == (path_components(a@) == path_components(b@)),
{
    let ca = components_of(&str_chars(a));
    let cb = components_of(&str_chars(b));
    if ca.len() != cb.len() {
        assert(vec_views(ca@).len() != vec_views(cb@).len());
        return false;
    }
    let r = starts_with_components(&ca, &cb);
    proof {
        let x = vec_views(ca@);
        let y = vec_views(cb@);
        assert(x.subrange(0, x.len() as int) =~= x);
    }
    r
}

/// Writes the names `components[from..]` with one separator between each two.
fn join_from(components: &Vec<Vec<char>>, from: usize) -> (r: Vec<char>)
    requires
        from <= components.len(),
    ensures
        r@ == join_names(vec_views(components@).skip(from as int)),
{
    let ghost names = vec_views(components@).skip(from as int);
    let mut out: Vec<char> = Vec::new();
    let mut i: usize = from;
    assert(names.take(0) =~= Seq::<Seq<char>>::empty());
    while i < components.len()
        invariant
            from <= i <= components.len(),
            names == vec_views(components@).skip(from as int),
            out@ == join_names(names.take(i - from)),
        decreases components.len() - i,
    {
        let ghost k = i - from;
        proof {
            assert(names.take(k + 1).drop_last() =~= names.take(k));
            assert(names.take(k + 1).last() == components@[i as int]@);
            if k == 1 {
                assert(names.take(1).len() == 1);
            }
        }
        if i > from {
            out.push('/');
        }
        append_chars(&mut out, &components[i]);
        proof {
            if k == 0 {
                assert(names.take(1)[0] == components@[i as int]@);
                assert(out@ =~= components@[i as int]@);
            } else {
                assert(out@ =~= join_names(names.take(k)) + seq!['/'] + components@[i as int]@);
            }
        }
        i += 1;
    }
    assert(names.take(names.len() as int) =~= names);
    out
}

/// The path of `caminho_filho` relative to `caminho_pai`: `./` and what is
/// left of the child's path behind the parent's components. `None` exactly
/// where the components of the parent are not the first components of the
/// child. A rooted child under a parent without components is returned as it
/// stands.
pub fn gera_caminho_relativo(caminho_filho: &str, caminho_pai: &str) -> (r: Option<String>)
    ensures
        r is Some <==> lies_under(caminho_filho@, caminho_pai@),
        match r {
            Some(path) => relative_path(caminho_filho@, caminho_pai@) == Some(path@),
            None => relative_path(caminho_filho@, caminho_pai@) is None,
        },
{
    let filho = components_of(&str_chars(caminho_filho));
    let pai = components_of(&str_chars(caminho_pai));
    if !starts_with_components(&filho, &pai) {
        return None;
    }
    let n = pai.len();
    let ghost rest = vec_views(filho@).skip(n as int);
    if n < filho.len() && filho[n].len() == 1 && filho[n][0] == '/' {
        assert(rest[0] =~= seq!['/']);
        return Some(caminho_filho.to_owned());
    }
    proof {
        if rest.len() > 0 {
            assert(rest[0] == filho@[n as int]@);
        }
    }
    let mut out: Vec<char> = Vec::new();
    out.push('.');
    out.push('/');
    let tail = join_from(&filho, n);
    append_chars(&mut out, &tail);
    assert(out@ =~= seq!['.', '/'] + join_names(rest));
    Some(chars_to_string(&out))
}

/// No separator stands inside a segment.
pub open spec fn has_no_slash(g: Seq<char>) -> bool {
    forall|k: int| 0 <= k < g.len() ==> #[trigger] g[k] != '/'
}

pub proof fn lemma_segments_no_slash(s: Seq<char>)
    ensures
        forall|i: int| 0 <= i < segments(s).len() ==> has_no_slash(#[trigger] segments(s)[i]),
    decreases s.len(),
{
    if s.len() > 0 {
        let t = s.drop_last();
        lemma_segments_no_slash(t);
        lemma_segments_push(t, s.last());
        assert(t.push(s.last()) =~= s);
        let init = segments(t);
        assert forall|i: int| 0 <= i < segments(s).len() implies has_no_slash(
            #[trigger] segments(s)[i],
        ) by {
            if s.last() == '/' {
                if i < init.len() {
                    assert(segments(s)[i] == init[i]);
                }
            } else {
                if i < init.len() - 1 {
                    assert(segments(s)[i] == init[i]);
                } else {
                    assert(has_no_slash(init[init.len() - 1]));
                }
            }
        }
    }
}

pub proof fn lemma_keep_names_shape(segs: Seq<Seq<char>>)
    requires
        forall|i: int| 0 <= i < segs.len() ==> has_no_slash(#[trigger] segs[i]),
    ensures
        forall|i: int|
            0 <= i < keep_names(segs).len() ==> is_name(#[trigger] keep_names(segs)[i])
                && has_no_slash(keep_names(segs)[i]),
    decreases segs.len(),
{
    if segs.len() > 0 {
        let init = segs.drop_last();
        assert forall|i: int| 0 <= i < init.len() implies has_no_slash(#[trigger] init[i]) by {
            assert(init[i] == segs[i]);
        }
        lemma_keep_names_shape(init);
        assert(has_no_slash(segs[segs.len() - 1]));
        let kept = keep_names(segs);
        let before = keep_names(init);
        assert forall|i: int| 0 <= i < kept.len() implies is_name(#[trigger] kept[i])
            && has_no_slash(kept[i]) by {
            if i < before.len() {
                assert(kept[i] == before[i]);
            }
        }
    }
}

/// Every component of a path is the root, which stands first if at all, or
/// a piece of text without a separator that is not empty.
pub proof fn lemma_components_shape(s: Seq<char>)
    ensures
        forall|i: int|
            0 <= i < path_components(s).len() ==> (#[trigger] path_components(s)[i]).len() > 0,
        forall|i: int|
            0 <= i < path_components(s).len() ==> has_no_slash(#[trigger] path_components(s)[i])
                || (i == 0 && path_components(s)[i] =~= seq!['/']),
        forall|i: int|
            head(s).len() <= i < path_components(s).len() ==> is_name(
                #[trigger] path_components(s)[i],
            ),
{
    lemma_segments_no_slash(s);
    lemma_keep_names_shape(segments(s));
    let h = head(s);
    let names = keep_names(segments(s));
    assert forall|i: int| 0 <= i < path_components(s).len() implies (
    #[trigger] path_components(s)[i]).len() > 0 && (has_no_slash(path_components(s)[i]) || (i == 0
        && path_components(s)[i] =~= seq!['/'])) by {
        if i < h.len() {
            assert(path_components(s)[i] == h[i]);
        } else {
            assert(path_components(s)[i] == names[i - h.len()]);
        }
    }
    assert forall|i: int| h.len() <= i < path_components(s).len() implies is_name(
        #[trigger] path_components(s)[i],
    ) by {
        assert(path_components(s)[i] == names[i - h.len()]);
    }
}

/// The path that `caminho_relativo_in` names below `caminho_pai_in`. In both,
/// `\` is read as `/` and white space around the text is dropped. A relative
/// path that starts at the root stands for itself.
pub fn gera_caminho_completo(caminho_relativo_in: &str, caminho_pai_in: &str) -> (r: String)
    ensures
        r@ == full_path(caminho_relativo_in@, caminho_pai_in@),
{
    let mut caminho_pai = trim_chars(&replace_in_chars(&str_chars(caminho_pai_in), '\\', '/'));
    let caminho_relativo = trim_chars(
        &replace_in_chars(&str_chars(caminho_relativo_in), '\\', '/'),
    );
    if caminho_relativo.len() > 0 && caminho_relativo[0] == '/' {
        return chars_to_string(&caminho_relativo);
    }
    if !(caminho_pai.len() > 0 && caminho_pai[caminho_pai.len() - 1] == '/') {
        caminho_pai.push('/');
    }
    append_chars(&mut caminho_pai, &caminho_relativo);
    chars_to_string(&caminho_pai)
}

/// Text without a separator is one segment.
pub proof fn lemma_segments_of_name(g: Seq<char>)
    requires
        has_no_slash(g),
    ensures
        segments(g) == seq![g],
    decreases g.len(),
{
    if g.len() == 0 {
        assert(g =~= Seq::<char>::empty());
    } else {
        let t = g.drop_last();
        assert(has_no_slash(t)) by {
            assert forall|k: int| 0 <= k < t.len() implies #[trigger] t[k] != '/' by {
                assert(t[k] == g[k]);
            }
        }
        lemma_segments_of_name(t);
        assert(g[g.len() - 1] != '/');
        assert(t.push(g.last()) =~= g);
        assert(seq![t].drop_last().push(seq![t].last().push(g.last())) =~= seq![g]);
    }
}

/// The segments of two texts with a separator between them are the segments
/// of the first and then those of the second.
pub proof fn lemma_segments_concat(a: Seq<char>, b: Seq<char>)
    ensures
        segments(a + seq!['/'] + b) == segments(a) + segments(b),
    decreases b.len(),
{
    if b.len() == 0 {
        assert(a + seq!['/'] + b =~= a.push('/'));
        lemma_segments_push(a, '/');
        assert(segments(a).push(Seq::<char>::empty()) =~= segments(a) + seq![
            Seq::<char>::empty(),
        ]);
    } else {
        let bt = b.drop_last();
        let c = b.last();
        lemma_segments_concat(a, bt);
        let s = a + seq!['/'] + bt;
        assert(a + seq!['/'] + b =~= s.push(c));
        lemma_segments_push(s, c);
        lemma_segments_push(bt, c);
        assert(bt.push(c) =~= b);
        let x = segments(a);
        let y = segments(bt);
        if c == '/' {
            assert((x + y).push(Seq::<char>::empty()) =~= x + y.push(Seq::<char>::empty()));
        } else {
            assert((x + y).drop_last() =~= x + y.drop_last());
            assert((x + y).last() == y.last());
            assert((x + y.drop_last()).push(y.last().push(c)) =~= x + y.drop_last().push(
                y.last().push(c),
            ));
        }
    }
}

pub proof fn lemma_keep_names_concat(x: Seq<Seq<char>>, y: Seq<Seq<char>>)
    ensures
        keep_names(x + y) == keep_names(x) + keep_names(y),
    decreases y.len(),
{
    if y.len() == 0 {
        assert(x + y =~= x);
        assert(keep_names(x) + keep_names(y) =~= keep_names(x));
    } else {
        lemma_keep_names_concat(x, y.drop_last());
        assert((x + y).drop_last() =~= x + y.drop_last());
        assert((x + y).last() == y.last());
        if is_name(y.last()) {
            assert((keep_names(x) + keep_names(y.drop_last())).push(y.last()) =~= keep_names(x)
                + keep_names(y.drop_last()).push(y.last()));
        }
    }
}

pub proof fn lemma_keep_names_single(g: Seq<char>)
    ensures
        keep_names(seq![g]) == if is_name(g) {
            seq![g]
        } else {
            Seq::<Seq<char>>::empty()
        },
{
    let none = Seq::<Seq<char>>::empty();
    lemma_keep_names_push(none, g);
    assert(none.push(g) =~= seq![g]);
    assert(keep_names(none) =~= none);
}

/// Names written with separators between them are read back as they were.
pub proof fn lemma_names_round_trip(names: Seq<Seq<char>>)
    requires
        forall|i: int|
            0 <= i < names.len() ==> is_name(#[trigger] names[i]) && has_no_slash(names[i]),
    ensures
        keep_names(segments(join_names(names))) == names,
    decreases names.len(),
{
    if names.len() == 0 {
        lemma_keep_names_single(Seq::<char>::empty());
        assert(names =~= Seq::<Seq<char>>::empty());
    } else if names.len() == 1 {
        lemma_segments_of_name(names[0]);
        lemma_keep_names_single(names[0]);
        assert(names =~= seq![names[0]]);
    } else {
        let init = names.drop_last();
        let g = names.last();
        assert forall|i: int| 0 <= i < init.len() implies is_name(#[trigger] init[i])
            && has_no_slash(init[i]) by {
            assert(init[i] == names[i]);
        }
        lemma_names_round_trip(init);
        lemma_segments_concat(join_names(init), g);
        lemma_segments_of_name(g);
        lemma_keep_names_concat(segments(join_names(init)), seq![g]);
        lemma_keep_names_single(g);
        assert(init + seq![g] =~= names);
    }
}

/// Text with a separator in it has more than one segment.
pub proof fn lemma_segments_with_slash(s: Seq<char>)
    requires
        s.contains('/'),
    ensures
        segments(s).len() >= 2,
    decreases s.len(),
{
    let k = choose|k: int| 0 <= k < s.len() && s[k] == '/';
    let t = s.drop_last();
    lemma_segments_push(t, s.last());
    assert(t.push(s.last()) =~= s);
    if s.last() != '/' {
        assert(t[k] == '/');
        lemma_segments_with_slash(t);
    }
}

/// The first segment is the text before the first separator.
pub proof fn lemma_first_segment(s: Seq<char>)
    ensures
        segments(s).len() >= 1,
        segments(s)[0] == s.take(first_index(s, '/')),
    decreases s.len(),
{
    lemma_first_index(s, '/');
    if s.len() == 0 {
        assert(s.take(0) =~= Seq::<char>::empty());
    } else {
        let t = s.drop_last();
        let c = s.last();
        lemma_first_segment(t);
        lemma_first_index(t, '/');
        lemma_segments_push(t, c);
        assert(t.push(c) =~= s);
        let ft = first_index(t, '/');
        if ft < t.len() {
            assert forall|i: int| 0 <= i < ft implies #[trigger] s[i] != '/' by {
                assert(s[i] == t[i]);
            }
            assert(s[ft] == t[ft]);
            lemma_first_index_is(s, '/', ft);
            assert(t.take(ft) =~= s.take(ft));
            assert(t.contains('/'));
            lemma_segments_with_slash(t);
        } else {
            assert forall|i: int| 0 <= i < t.len() implies #[trigger] s[i] != '/' by {
                assert(s[i] == t[i]);
                assert(t[i] != '/');
            }
            if c == '/' {
                lemma_first_index_is(s, '/', t.len() as int);
                assert(t.take(t.len() as int) =~= s.take(t.len() as int));
            } else {
                lemma_first_index_is(s, '/', s.len() as int);
                assert(has_no_slash(t)) by {
                    assert forall|i: int| 0 <= i < t.len() implies #[trigger] t[i] != '/' by {
                        assert(s[i] != '/');
                        assert(s[i] == t[i]);
                    }
                }
                lemma_segments_of_name(t);
                assert(seq![t].drop_last().push(seq![t].last().push(c)) =~= seq![s]);
                assert(s.take(s.len() as int) =~= s);
            }
        }
    }
}

/// Where a segment names something, the names are not empty.
pub proof fn lemma_keep_names_not_empty(segs: Seq<Seq<char>>, k: int)
    requires
        0 <= k < segs.len(),
        is_name(segs[k]),
    ensures
        keep_names(segs).len() > 0,
    decreases segs.len(),
{
    if k < segs.len() - 1 {
        assert(segs.drop_last()[k] == segs[k]);
        lemma_keep_names_not_empty(segs.drop_last(), k);
    }
}

/// Only the empty path has no component.
pub proof fn lemma_path_has_component(s: Seq<char>)
    requires
        s.len() > 0,
    ensures
        path_components(s).len() > 0,
{
    if head(s).len() == 0 {
        lemma_first_segment(s);
        lemma_first_index(s, '/');
        let f = first_index(s, '/');
        let g = segments(s)[0];
        assert(f > 0);
        assert(g[0] == s[0]);
        if g =~= seq!['.'] {
            assert(g.len() == 1);
            assert(f == 1);
            assert(s[0] == '.');
        }
        assert(is_name(g));
        lemma_keep_names_not_empty(segments(s), 0);
    }
}

/// A separator at the end of a path adds no component.
pub proof fn lemma_with_slash_components(s: Seq<char>)
    requires
        s.len() > 0,
    ensures
        path_components(with_slash(s)) == path_components(s),
{
    if !(s.last() == '/') {
        lemma_segments_push(s, '/');
        lemma_keep_names_push(segments(s), Seq::<char>::empty());
        assert(s.push('/')[0] == s[0]);
        if s.len() > 1 {
            assert(s.push('/')[1] == s[1]);
        }
        assert(head(s.push('/')) =~= head(s));
    }
}

/// A path written behind a directory that ends in a separator has the
/// directory's components and then its own names.
pub proof fn lemma_components_below(dir: Seq<char>, p: Seq<char>)
    requires
        dir.len() > 0,
        dir.last() == '/',
    ensures
        path_components(dir + p) == path_components(dir) + keep_names(segments(p)),
{
    let d = dir.drop_last();
    assert(dir =~= d + seq!['/']);
    assert(dir + p =~= d + seq!['/'] + p);
    lemma_segments_concat(d, p);
    lemma_segments_concat(d, Seq::<char>::empty());
    assert(d + seq!['/'] + Seq::<char>::empty() =~= dir);
    lemma_keep_names_concat(segments(d), segments(p));
    lemma_keep_names_concat(segments(d), segments(Seq::<char>::empty()));
    let one = seq![Seq::<char>::empty()];
    lemma_keep_names_single(Seq::<char>::empty());
    assert(keep_names(segments(d)) + keep_names(one) =~= keep_names(segments(d)));
    assert((dir + p)[0] == dir[0]);
    if dir.len() > 1 {
        assert((dir + p)[1] == dir[1]);
    }
    assert(head(dir + p) =~= head(dir));
    assert(head(dir) + (keep_names(segments(d)) + keep_names(segments(p))) =~= (head(dir)
        + keep_names(segments(d))) + keep_names(segments(p)));
}

/// A relative path leads back to the file it was made for: where `child`
/// lies under `parent`, the path of `child` relative to `parent`, resolved
/// below `parent` again, has the components of `child`.
///
/// This holds for a `parent` and a relative path that resolving reads as
/// they stand (no `\`, no white space at either end), and for an empty
/// `parent` only if `child` starts at the root.
pub proof fn lemma_relative_round_trip(child: Seq<char>, parent: Seq<char>)
    requires
        lies_under(child, parent),
        normalized(parent) == parent,
        normalized(relative_path(child, parent)->0) == relative_path(child, parent)->0,
        parent.len() > 0 || (child.len() > 0 && child[0] == '/'),
    ensures
        path_components(full_path(relative_path(child, parent)->0, parent)) == path_components(
            child,
        ),
{
    let c = path_components(child);
    let p = path_components(parent);
    let n = p.len() as int;
    let rest = c.skip(n);
    let rel = relative_path(child, parent)->0;
    lemma_components_shape(child);
    assert(p =~= c.subrange(0, n));
    if parent.len() == 0 {
        lemma_rooted_under_empty(child);
        assert(full_path(rel, parent) == rel);
    } else {
        lemma_relative_path_below_parent(child, parent);
        lemma_path_has_component(parent);
        assert forall|i: int| 0 <= i < rest.len() implies is_name(#[trigger] rest[i])
            && has_no_slash(rest[i]) by {
            assert(rest[i] == c[i + n]);
            assert(head(child).len() <= 1);
        }
        let text = join_names(rest);
        let dot = seq!['.', '/'];
        assert(rel == dot + text);
        assert(rel[0] == '.');
        let dir = with_slash(parent);
        assert(full_path(rel, parent) == dir + rel);
        lemma_with_slash_components(parent);
        lemma_components_below(dir, rel);
        lemma_names_round_trip(rest);
        let cur = seq!['.'];
        assert(rel =~= cur + seq!['/'] + text);
        lemma_segments_concat(cur, text);
        assert(has_no_slash(cur));
        lemma_segments_of_name(cur);
        lemma_keep_names_concat(seq![cur], segments(text));
        lemma_keep_names_single(cur);
        assert(keep_names(segments(rel)) =~= rest);
        assert(p + rest =~= c);
    }
}

/// Every path lies under the empty path, and a path that starts at the root
/// is, relative to the empty path, the path as it stands.
pub proof fn lemma_rooted_under_empty(child: Seq<char>)
    ensures
        lies_under(child, Seq::<char>::empty()),
        child.len() > 0 && child[0] == '/' ==> relative_path(child, Seq::<char>::empty()) == Some(
            child,
        ),
{
    let parent = Seq::<char>::empty();
    assert(segments(parent) =~= seq![Seq::<char>::empty()]);
    lemma_keep_names_single(Seq::<char>::empty());
    assert(path_components(parent) =~= Seq::<Seq<char>>::empty());
    let c = path_components(child);
    assert(c.subrange(0, 0) =~= Seq::<Seq<char>>::empty());
    assert(c.skip(0) =~= c);
    if child.len() > 0 && child[0] == '/' {
        assert(c[0] == head(child)[0]);
    }
}

/// Under a parent that is not empty, every relative path starts with `./`.
pub proof fn lemma_relative_path_below_parent(child: Seq<char>, parent: Seq<char>)
    requires
        lies_under(child, parent),
        parent.len() > 0,
    ensures
        relative_path(child, parent) == Some(
            seq!['.', '/'] + join_names(
                path_components(child).skip(path_components(parent).len() as int),
            ),
        ),
        starts_with_dot_slash(relative_path(child, parent)->0),
{
    let c = path_components(child);
    let n = path_components(parent).len() as int;
    let rest = c.skip(n);
    lemma_path_has_component(parent);
    lemma_components_shape(child);
    if rest.len() > 0 {
        assert(rest[0] == c[n]);
        assert(has_no_slash(c[n]));
        if rest[0] =~= seq!['/'] {
            assert(c[n][0] == '/');
        }
    }
}

/// `path` with `/` for every `\\`.
pub fn to_forward_slashes(path: &str) -> (r: String)
    ensures
        r@ == replace_char(path@, '\\', '/'),
{
    chars_to_string(&replace_in_chars(&str_chars(path), '\\', '/'))
}

/// The pattern that matches everything below a directory.
pub open spec fn tree_pattern_of(dir: Seq<char>) -> Seq<char> {
    dir + "/**/*"@
}

/// Writes the pattern that matches everything below `dir`.
pub fn tree_pattern(dir: &str) -> (pattern: String)
    ensures
        pattern@ == tree_pattern_of(dir@),
{
    let mut out = str_chars(dir);
    append_chars(&mut out, &str_chars("/**/*"));
    chars_to_string(&out)
}

} // verus!
