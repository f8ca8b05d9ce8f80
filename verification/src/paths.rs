//! Directory identity: paths compared by their components, as `Path` does.
use vstd::prelude::*;
use vstd::string::*;

use crate::text::chars_of;

verus! {

pub open spec fn is_absolute_path(s: Seq<char>) -> bool {
    s.len() > 0 && s[0] == '/'
}

/// The component that a run of characters between separators forms, if any:
/// empty runs and `.` runs are not components.
pub open spec fn finish_component(run: Seq<char>) -> Seq<Seq<char>> {
    if run.len() == 0 || run =~= seq!['.'] {
        Seq::empty()
    } else {
        seq![run]
    }
}

/// The components of `s` after the current run `run`.
pub open spec fn split_path(s: Seq<char>, run: Seq<char>) -> Seq<Seq<char>>
    decreases s.len(),
{
    if s.len() == 0 {
        finish_component(run)
    } else if s[0] == '/' {
        finish_component(run) + split_path(s.drop_first(), Seq::empty())
    } else {
        split_path(s.drop_first(), run.push(s[0]))
    }
}

/// The named components of a path, after its root.
pub open spec fn path_components(s: Seq<char>) -> Seq<Seq<char>> {
    split_path(s, Seq::empty())
}

/// Two absolute paths name the same location component by component.
pub open spec fn same_path(a: Seq<char>, b: Seq<char>) -> bool {
    path_components(a) == path_components(b)
}

pub open spec fn is_parent_component(c: Seq<char>) -> bool {
    c =~= seq!['.', '.']
}

/// Code-point order of strings.
pub open spec fn text_less(a: Seq<char>, b: Seq<char>) -> bool
    decreases a.len(),
{
    if a.len() == 0 {
        b.len() > 0
    } else if b.len() == 0 {
        false
    } else if a[0] != b[0] {
        a[0] < b[0]
    } else {
        text_less(a.drop_first(), b.drop_first())
    }
}

/// Component order: `..` before every named component, named components by text.
pub open spec fn component_less(a: Seq<char>, b: Seq<char>) -> bool {
    if is_parent_component(b) {
        false
    } else if is_parent_component(a) {
        true
    } else {
        text_less(a, b)
    }
}

/// Lexicographic order of component lists.
pub open spec fn components_less(a: Seq<Seq<char>>, b: Seq<Seq<char>>) -> bool
    decreases a.len(),
{
    if a.len() == 0 {
        b.len() > 0
    } else if b.len() == 0 {
        false
    } else if a[0] != b[0] {
        component_less(a[0], b[0])
    } else {
        components_less(a.drop_first(), b.drop_first())
    }
}

/// Order of absolute paths, as `Path` orders them.
pub open spec fn path_less(a: Seq<char>, b: Seq<char>) -> bool {
    components_less(path_components(a), path_components(b))
}

pub(crate) proof fn lemma_text_less_order(a: Seq<char>, b: Seq<char>, c: Seq<char>)
    ensures
        text_less(a, b) ==> !text_less(b, a),
        text_less(a, b) && text_less(b, c) ==> text_less(a, c),
    decreases a.len(),
{
    if a.len() > 0 && b.len() > 0 && c.len() > 0 {
        lemma_text_less_order(a.drop_first(), b.drop_first(), c.drop_first());
    } else if a.len() > 0 && b.len() > 0 && a[0] == b[0] {
        lemma_text_less_order(a.drop_first(), b.drop_first(), c);
    }
}

/// Distinct texts are ordered one way or the other.
pub(crate) proof fn lemma_text_less_total(a: Seq<char>, b: Seq<char>)
    ensures
        a != b ==> text_less(a, b) || text_less(b, a),
        !text_less(a, a),
    decreases a.len(),
{
    if a.len() > 0 && b.len() > 0 && a[0] == b[0] {
        lemma_text_less_total(a.drop_first(), b.drop_first());
        if a.drop_first() == b.drop_first() {
            assert(a =~= seq![a[0]] + a.drop_first());
            assert(b =~= seq![b[0]] + b.drop_first());
        }
    }
    if a.len() > 0 {
        lemma_text_less_total(a.drop_first(), a.drop_first());
    }
    if a.len() == 0 && b.len() == 0 {
        assert(a =~= b);
    }
}

proof fn lemma_component_less_order(a: Seq<char>, b: Seq<char>, c: Seq<char>)
    ensures
        component_less(a, b) ==> !component_less(b, a),
        component_less(a, b) && component_less(b, c) ==> component_less(a, c),
{
    lemma_text_less_order(a, b, c);
}

proof fn lemma_components_less_order(a: Seq<Seq<char>>, b: Seq<Seq<char>>, c: Seq<Seq<char>>)
    ensures
        components_less(a, b) ==> !components_less(b, a),
        components_less(a, b) && components_less(b, c) ==> components_less(a, c),
    decreases a.len(),
{
    if a.len() > 0 && b.len() > 0 {
        lemma_component_less_order(a[0], b[0], a[0]);
        if c.len() > 0 {
            lemma_component_less_order(a[0], b[0], c[0]);
            lemma_component_less_order(b[0], c[0], a[0]);
            lemma_components_less_order(a.drop_first(), b.drop_first(), c.drop_first());
        } else {
            lemma_components_less_order(a.drop_first(), b.drop_first(), c);
        }
    }
}

/// Path order is a strict order: asymmetric and transitive.
pub proof fn lemma_path_less_order(a: Seq<char>, b: Seq<char>, c: Seq<char>)
    ensures
        path_less(a, b) ==> !path_less(b, a),
        path_less(a, b) && path_less(b, c) ==> path_less(a, c),
{
    lemma_components_less_order(path_components(a), path_components(b), path_components(c));
}

/// Outcome of comparing two values.
#[derive(Clone, Copy, Debug, PartialEq, Eq, Structural)]
pub enum Order {
    Less,
    Equal,
    Greater,
}

fn finish_run(components: &mut Vec<Vec<char>>, run: Vec<char>)
    ensures
        final(components)@.map_values(|c: Vec<char>| c@) == old(components)@.map_values(
            |c: Vec<char>| c@,
        ) + finish_component(run@),
{
    let ghost before = components@.map_values(|c: Vec<char>| c@);
    let is_dot = run.len() == 1 && run[0] == '.';
    if run.len() == 0 || is_dot {
        assert(run@.len() == 0 || run@ =~= seq!['.']);
        assert(before + finish_component(run@) =~= before);
    } else {
        assert(!(run@ =~= seq!['.']));
        components.push(run);
        assert(components@.map_values(|c: Vec<char>| c@) =~= before + finish_component(
            final(components)@.last()@,
        ));
    }
}

/// The named components of a path.
pub fn components_of(path: &str) -> (components: Vec<Vec<char>>)
    ensures
        components@.map_values(|c: Vec<char>| c@) == path_components(path@),
{
    let chars = chars_of(path);
    let n = chars.len();
    let mut components: Vec<Vec<char>> = Vec::new();
    let mut run: Vec<char> = Vec::new();
    let mut i: usize = 0;
    assert(chars@.skip(0) =~= chars@);
    while i < n
        invariant
            n == chars@.len(),
            chars@ == path@,
            i <= n,
            path_components(path@) == components@.map_values(|c: Vec<char>| c@) + split_path(
                chars@.skip(i as int),
                run@,
            ),
        decreases n - i,
    {
        let c = chars[i];
        let ghost rest = chars@.skip(i as int);
        assert(rest.drop_first() =~= chars@.skip(i + 1));
        if c == '/' {
            let finished = run;
            run = Vec::new();
            let ghost done = components@.map_values(|c: Vec<char>| c@);
            finish_run(&mut components, finished);
            assert(done + (finish_component(finished@) + split_path(chars@.skip(i + 1), run@))
                =~= components@.map_values(|c: Vec<char>| c@) + split_path(
                chars@.skip(i + 1),
                run@,
            ));
        } else {
            run.push(c);
        }
        i = i + 1;
    }
    assert(chars@.skip(n as int) =~= Seq::<char>::empty());
    let ghost done = components@.map_values(|c: Vec<char>| c@);
    finish_run(&mut components, run);
    components
}

pub(crate) fn text_order(a: &Vec<char>, b: &Vec<char>) -> (order: Order)
    ensures
        order == Order::Equal <==> a@ == b@,
        order == Order::Less <==> text_less(a@, b@),
        order == Order::Greater <==> (a@ != b@ && !text_less(a@, b@)),
{
    let mut i: usize = 0;
    assert(a@.skip(0) =~= a@);
    assert(b@.skip(0) =~= b@);
    while i < a.len() && i < b.len() && a[i] == b[i]
        invariant
            i <= a@.len(),
            i <= b@.len(),
            a@.take(i as int) == b@.take(i as int),
            text_less(a@, b@) == text_less(a@.skip(i as int), b@.skip(i as int)),
        decreases a@.len() - i,
    {
        let ghost sa = a@.skip(i as int);
        let ghost sb = b@.skip(i as int);
        assert(sa.drop_first() =~= a@.skip(i + 1));
        assert(sb.drop_first() =~= b@.skip(i + 1));
        assert(a@.take(i + 1) =~= a@.take(i as int).push(a@[i as int]));
        assert(b@.take(i + 1) =~= b@.take(i as int).push(b@[i as int]));
        i = i + 1;
    }
    if i == a.len() && i == b.len() {
        assert(a@ =~= a@.take(i as int));
        assert(b@ =~= b@.take(i as int));
        return Order::Equal;
    }
    if i == a.len() {
        assert(a@.skip(i as int).len() == 0);
        assert(a@.len() != b@.len());
        return Order::Less;
    }
    if i == b.len() {
        assert(a@.len() != b@.len());
        return Order::Greater;
    }
    assert(a@[i as int] != b@[i as int]);
    assert(a@.skip(i as int)[0] == a@[i as int]);
    assert(b@.skip(i as int)[0] == b@[i as int]);
    if a[i] < b[i] {
        Order::Less
    } else {
        Order::Greater
    }
}

fn is_parent(c: &Vec<char>) -> (parent: bool)
    ensures
        parent == is_parent_component(c@),
{
    let parent = c.len() == 2 && c[0] == '.' && c[1] == '.';
    proof {
        if parent {
            assert(c@ =~= seq!['.', '.']);
        } else if c@ =~= seq!['.', '.'] {
            assert(c@.len() == 2 && c@[0] == '.' && c@[1] == '.');
        }
    }
    parent
}

fn component_order(a: &Vec<char>, b: &Vec<char>) -> (order: Order)
    ensures
        order == Order::Equal <==> a@ == b@,
        order == Order::Less <==> (a@ != b@ && component_less(a@, b@)),
        order == Order::Greater <==> (a@ != b@ && !component_less(a@, b@)),
{
    let text = text_order(a, b);
    if text == Order::Equal {
        return Order::Equal;
    }
    if is_parent(b) {
        Order::Greater
    } else if is_parent(a) {
        Order::Less
    } else {
        text
    }
}

/// Compares two paths by their components, as `Path`'s order does for
/// absolute paths.
pub fn compare_paths(a: &str, b: &str) -> (order: Order)
    ensures
        order == Order::Equal <==> same_path(a@, b@),
        order == Order::Less <==> path_less(a@, b@),
        order == Order::Greater <==> (!same_path(a@, b@) && !path_less(a@, b@)),
{
    let ca = components_of(a);
    let cb = components_of(b);
    let ghost va = ca@.map_values(|c: Vec<char>| c@);
    let ghost vb = cb@.map_values(|c: Vec<char>| c@);
    let mut i: usize = 0;
    assert(va.skip(0) =~= va);
    assert(vb.skip(0) =~= vb);
    loop
        invariant
            i <= ca@.len(),
            i <= cb@.len(),
            va == path_components(a@),
            vb == path_components(b@),
            va == ca@.map_values(|c: Vec<char>| c@),
            vb == cb@.map_values(|c: Vec<char>| c@),
            va.take(i as int) == vb.take(i as int),
            components_less(va, vb) == components_less(va.skip(i as int), vb.skip(i as int)),
        decreases ca@.len() - i,
    {
        if i == ca.len() && i == cb.len() {
            assert(va =~= va.take(i as int));
            assert(vb =~= vb.take(i as int));
            return Order::Equal;
        }
        if i == ca.len() {
            assert(va.len() != vb.len());
            return Order::Less;
        }
        if i == cb.len() {
            assert(va.len() != vb.len());
            return Order::Greater;
        }
        let order = component_order(&ca[i], &cb[i]);
        assert(va[i as int] == ca@[i as int]@);
        assert(vb[i as int] == cb@[i as int]@);
        assert(va.skip(i as int)[0] == va[i as int]);
        assert(vb.skip(i as int)[0] == vb[i as int]);
        if order != Order::Equal {
            assert(va[i as int] != vb[i as int]);
            return order;
        }
        assert(va.skip(i as int).drop_first() =~= va.skip(i + 1));
        assert(vb.skip(i as int).drop_first() =~= vb.skip(i + 1));
        assert(va.take(i + 1) =~= va.take(i as int).push(va[i as int]));
        assert(vb.take(i + 1) =~= vb.take(i as int).push(vb[i as int]));
        i = i + 1;
    }
}

/// Whether two absolute paths name the same location.
pub fn paths_equal(a: &str, b: &str) -> (equal: bool)
    ensures
        equal == same_path(a@, b@),
{
    compare_paths(a, b) == Order::Equal
}

/// Whether a path begins at the root.
pub fn is_absolute(path: &str) -> (absolute: bool)
    ensures
        absolute == is_absolute_path(path@),
{
    let n = path.unicode_len();
    n > 0 && path.get_char(0) == '/'
}

/// `base` joined with the relative name `name`, with one separator between them.
pub open spec fn joined(base: Seq<char>, name: Seq<char>) -> Seq<char> {
    if base.len() == 0 || base.last() == '/' {
        base + name
    } else {
        base.push('/') + name
    }
}

/// Joins a relative file name onto a directory path, as `Path::join` does.
pub fn join_path(base: &str, name: &str) -> (path: String)
    ensures
        path@ == joined(base@, name@),
{
    let n = base.unicode_len();
    let mut path = String::from_str(base);
    if n > 0 && base.get_char(n - 1) != '/' {
        crate::text::push_char(&mut path, '/');
    }
    path.append(name);
    path
}

// ---------------------------------------------------------------------
// Missing components
// ---------------------------------------------------------------------
/// Position of the last `/` in `p`, or -1.
pub open spec fn last_slash(p: Seq<char>) -> int
    decreases p.len(),
{
    if p.len() == 0 {
        -1
    } else if p.last() == '/' {
        p.len() - 1
    } else {
        last_slash(p.drop_last())
    }
}

/// An absolute path without its last component; the root stays the root.
pub open spec fn parent_path(p: Seq<char>) -> Seq<char> {
    if last_slash(p) <= 0 {
        seq!['/']
    } else {
        p.take(last_slash(p))
    }
}

/// The components `names` appended lexically to the existing path `base`:
/// `.` is skipped, `..` drops the last component (never above the root), and
/// anything else is joined.
pub open spec fn lexical_join(base: Seq<char>, names: Seq<Seq<char>>) -> Seq<char>
    decreases names.len(),
{
    if names.len() == 0 {
        base
    } else {
        let before = lexical_join(base, names.drop_last());
        let name = names.last();
        if name == seq!['.'] {
            before
        } else if name == seq!['.', '.'] {
            parent_path(before)
        } else {
            joined(before, name)
        }
    }
}

fn parent_chars(p: &Vec<char>) -> (parent: Vec<char>)
    ensures
        parent@ == parent_path(p@),
{
    let mut i: usize = p.len();
    assert(p@.take(p@.len() as int) =~= p@);
    while i > 0 && p[i - 1] != '/'
        invariant
            i <= p@.len(),
            last_slash(p@) == last_slash(p@.take(i as int)),
        decreases i,
    {
        assert(p@.take(i as int).drop_last() =~= p@.take(i - 1));
        i = i - 1;
    }
    proof {
        assert(p@.take(p@.len() as int) =~= p@);
        if i > 0 {
            assert(p@.take(i as int).last() == '/');
        } else {
            assert(p@.take(0) =~= Seq::<char>::empty());
        }
    }
    let mut parent: Vec<char> = Vec::new();
    if i <= 1 {
        parent.push('/');
        assert(parent@ =~= seq!['/']);
    } else {
        let mut k: usize = 0;
        while k < i - 1
            invariant
                1 < i <= p@.len(),
                k <= i - 1,
                parent@ =~= p@.take(k as int),
            decreases i - 1 - k,
        {
            parent.push(p[k]);
            k = k + 1;
        }
    }
    parent
}

fn text_of(chars: &Vec<char>) -> (text: String)
    ensures
        text@ == chars@,
{
    let mut text = String::new();
    let mut i: usize = 0;
    while i < chars.len()
        invariant
            i <= chars@.len(),
            text@ =~= chars@.take(i as int),
        decreases chars@.len() - i,
    {
        crate::text::push_char(&mut text, chars[i]);
        i = i + 1;
    }
    text
}

/// Appends the components of a path that do not exist yet, in order, to the
/// canonical path of its longest existing prefix.
pub fn append_missing_components(existing: &str, missing: &Vec<String>) -> (path: String)
    requires
        is_absolute_path(existing@),
    ensures
        path@ == lexical_join(existing@, crate::service::texts(missing@)),
{
    let ghost names = crate::service::texts(missing@);
    let mut current = chars_of(existing);
    let mut i: usize = 0;
    while i < missing.len()
        invariant
            i <= missing@.len(),
            names == crate::service::texts(missing@),
            current@ == lexical_join(existing@, names.take(i as int)),
        decreases missing@.len() - i,
    {
        let name = missing[i].as_str();
        proof {
            assert(names.take(i + 1).drop_last() =~= names.take(i as int));
            assert(names.take(i + 1).last() == name@);
        }
        proof {
            reveal_strlit(".");
            reveal_strlit("..");
            assert("."@ =~= seq!['.']);
            assert(".."@ =~= seq!['.', '.']);
        }
        if crate::text::str_eq(name, ".") {
        } else if crate::text::str_eq(name, "..") {
            current = parent_chars(&current);
        } else {
            let ghost before = current@;
            let n = current.len();
            if n > 0 && current[n - 1] != '/' {
                current.push('/');
                assert(current@ =~= before.push('/'));
            }
            let extra = chars_of(name);
            let mut k: usize = 0;
            let ghost start = current@;
            while k < extra.len()
                invariant
                    k <= extra@.len(),
                    current@ =~= start + extra@.take(k as int),
                decreases extra@.len() - k,
            {
                current.push(extra[k]);
                k = k + 1;
            }
            assert(extra@.take(extra@.len() as int) =~= extra@);
            assert(current@ =~= joined(before, name@));
        }
        i = i + 1;
    }
    assert(names.take(missing@.len() as int) =~= names);
    text_of(&current)
}

} // verus!
