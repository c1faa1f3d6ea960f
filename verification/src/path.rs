//! Paths: byte strings whose components a slash separates.
use vstd::prelude::*;

use crate::bytes::{copy_range, push_all};

verus! {

/// What separates the components of a path.
pub const SLASH: u8 = 0x2F;

/// A dot.
pub const DOT: u8 = 0x2E;

/// Where the first slash of `path` is, or its length where it has none.
pub open spec fn first_slash(path: Seq<u8>) -> int
    decreases path.len(),
{
    if path.len() == 0 || path[0] == SLASH {
        0
    } else {
        1 + first_slash(path.drop_first())
    }
}

/// Whether a component names the directory it is in.
pub open spec fn is_here(component: Seq<u8>) -> bool {
    component.len() == 0 || component == seq![DOT]
}

/// Whether a component names the directory above.
pub open spec fn is_ascent(component: Seq<u8>) -> bool {
    component == seq![DOT, DOT]
}

/// The components of a path, without those that name the directory they are in.
pub open spec fn components_of(path: Seq<u8>) -> Seq<Seq<u8>>
    decreases path.len(),
{
    if path.len() == 0 {
        Seq::empty()
    } else {
        let end = first_slash(path);
        let first = path.subrange(0, end);
        let rest = if 0 <= end < path.len() {
            path.subrange(end + 1, path.len() as int)
        } else {
            Seq::empty()
        };
        if is_here(first) {
            components_of(rest)
        } else {
            seq![first] + components_of(rest)
        }
    }
}

/// Components with one slash between each and the next.
pub open spec fn joined(components: Seq<Seq<u8>>) -> Seq<u8>
    decreases components.len(),
{
    if components.len() == 0 {
        Seq::empty()
    } else if components.len() == 1 {
        components[0]
    } else {
        joined(components.drop_last()) + seq![SLASH] + components.last()
    }
}

/// The one spelling of the path an entry is found by: its components and nothing else. The
/// root's is empty.
pub open spec fn key_of(path: Seq<u8>) -> Seq<u8> {
    joined(components_of(path))
}

/// Whether a path ascends anywhere.
pub open spec fn ascends(path: Seq<u8>) -> bool {
    exists|i: int| 0 <= i < components_of(path).len() && is_ascent(#[trigger] components_of(path)[i])
}

/// What each vector of a sequence holds.
pub open spec fn views(all: Seq<Vec<u8>>) -> Seq<Seq<u8>> {
    Seq::new(all.len(), |i: int| all[i]@)
}

/// Where the last slash of `key` is, or -1 where it has none.
pub open spec fn last_slash(key: Seq<u8>) -> int
    decreases key.len(),
{
    if key.len() == 0 {
        -1
    } else if key.last() == SLASH {
        key.len() - 1
    } else {
        last_slash(key.drop_last())
    }
}

/// The key of the directory an entry is in.
pub open spec fn parent_of(key: Seq<u8>) -> Seq<u8> {
    if last_slash(key) < 0 {
        Seq::empty()
    } else {
        key.subrange(0, last_slash(key))
    }
}

/// The name of an entry in its directory.
pub open spec fn name_of(key: Seq<u8>) -> Seq<u8> {
    key.subrange(last_slash(key) + 1, key.len() as int)
}

/// The first slash is inside the path or at its end.
pub proof fn lemma_first_slash(path: Seq<u8>)
    ensures
        0 <= first_slash(path) <= path.len(),
        first_slash(path) < path.len() ==> path[first_slash(path)] == SLASH,
        forall|i: int| 0 <= i < first_slash(path) ==> path[i] != SLASH,
    decreases path.len(),
{
    if path.len() > 0 && path[0] != SLASH {
        lemma_first_slash(path.drop_first());
        assert forall|i: int| 0 <= i < first_slash(path) implies path[i] != SLASH by {
            if i > 0 {
                assert(path[i] == path.drop_first()[i - 1]);
            }
        }
    }
}

/// A position with no slash before it, and one at it or nothing behind it, is the first.
proof fn lemma_first_slash_is(path: Seq<u8>, at: int)
    requires
        0 <= at <= path.len(),
        at < path.len() ==> path[at] == SLASH,
        forall|i: int| 0 <= i < at ==> path[i] != SLASH,
    ensures
        first_slash(path) == at,
    decreases path.len(),
{
    if path.len() > 0 && path[0] != SLASH {
        lemma_first_slash_is(path.drop_first(), at - 1);
    }
}

/// The last slash is inside the key.
pub proof fn lemma_last_slash(key: Seq<u8>)
    ensures
        -1 <= last_slash(key) < key.len(),
        last_slash(key) >= 0 ==> key[last_slash(key)] == SLASH,
        forall|i: int| last_slash(key) < i < key.len() ==> key[i] != SLASH,
    decreases key.len(),
{
    if key.len() > 0 && key.last() != SLASH {
        lemma_last_slash(key.drop_last());
        assert forall|i: int| last_slash(key) < i < key.len() implies key[i] != SLASH by {
            if i < key.len() - 1 {
                assert(key[i] == key.drop_last()[i]);
            }
        }
    }
}

/// The components of a path, without those that name the directory they are in.
pub fn components(path: &[u8]) -> (out: Vec<Vec<u8>>)
    ensures
        views(out@) == components_of(path@),
{
    let mut out: Vec<Vec<u8>> = Vec::new();
    let len: usize = path.len();
    let mut at: usize = 0;
    assert(path@.subrange(0, len as int) =~= path@);
    assert(views(out@) + components_of(path@) =~= components_of(path@));
    while at < len
        invariant
            at <= len,
            len == path@.len(),
            views(out@) + components_of(path@.subrange(at as int, len as int)) == components_of(
                path@,
            ),
        decreases len - at,
    {
        let ghost rest = path@.subrange(at as int, len as int);
        let ghost before = out@;
        let mut end: usize = at;
        while end < len && path[end] != SLASH
            invariant
                at <= end <= len,
                len == path@.len(),
                forall|i: int| at <= i < end ==> path@[i] != SLASH,
            decreases len - end,
        {
            end += 1;
        }
        proof {
            lemma_first_slash_is(rest, end - at);
            assert(rest.subrange(0, end - at) =~= path@.subrange(at as int, end as int));
        }
        let here: bool = end == at || (end - at == 1 && path[at] == DOT);
        proof {
            let first = path@.subrange(at as int, end as int);
            assert(here == is_here(first)) by {
                if end - at == 1 && path@[at as int] == DOT {
                    assert(first =~= seq![DOT]);
                }
                if first == seq![DOT] {
                    assert(first[0] == DOT);
                }
            }
        }
        if !here {
            let part = copy_range(path, at, end);
            out.push(part);
            assert(views(out@) =~= views(before).push(path@.subrange(at as int, end as int)));
        }
        let next: usize = if end < len {
            end + 1
        } else {
            len
        };
        proof {
            let tail = path@.subrange(next as int, len as int);
            if end < len {
                assert(rest.subrange(end - at + 1, rest.len() as int) =~= tail);
            } else {
                assert(tail =~= Seq::<u8>::empty());
            }
            let first = path@.subrange(at as int, end as int);
            if !here {
                assert(views(before).push(first) + components_of(tail) =~= views(before) + (
                seq![first] + components_of(tail)));
            }
        }
        at = next;
    }
    assert(path@.subrange(at as int, len as int) =~= Seq::<u8>::empty());
    assert(views(out@) =~= views(out@) + components_of(path@.subrange(at as int, len as int)));
    out
}

/// The one spelling of the path an entry is found by.
pub fn canonical_key(path: &[u8]) -> (key: Vec<u8>)
    ensures
        key@ == key_of(path@),
{
    let parts = components(path);
    let mut key: Vec<u8> = Vec::new();
    let mut i: usize = 0;
    let ghost all = components_of(path@);
    assert(all.take(0) =~= Seq::<Seq<u8>>::empty());
    while i < parts.len()
        invariant
            i <= parts@.len(),
            views(parts@) == all,
            key@ == joined(all.take(i as int)),
        decreases parts@.len() - i,
    {
        proof {
            assert(all.take(i + 1).drop_last() =~= all.take(i as int));
            assert(all.take(i + 1).last() == parts@[i as int]@) by {
                assert(all[i as int] == views(parts@)[i as int]);
            }
        }
        let ghost before = key@;
        if i > 0 {
            key.push(SLASH);
        }
        push_all(&mut key, &parts[i]);
        proof {
            if i > 0 {
                assert(key@ =~= before + seq![SLASH] + parts@[i as int]@);
            } else {
                assert(key@ =~= parts@[i as int]@);
            }
        }
        i += 1;
    }
    assert(all.take(i as int) =~= all);
    key
}

/// Whether a path ascends anywhere.
pub fn has_ascent(path: &[u8]) -> (yes: bool)
    ensures
        yes == ascends(path@),
{
    let parts = components(path);
    let mut i: usize = 0;
    while i < parts.len()
        invariant
            i <= parts@.len(),
            views(parts@) == components_of(path@),
            forall|j: int| 0 <= j < i ==> !is_ascent(#[trigger] components_of(path@)[j]),
        decreases parts@.len() - i,
    {
        assert(components_of(path@)[i as int] == views(parts@)[i as int]);
        if is_up(&parts[i]) {
            return true;
        }
        i += 1;
    }
    false
}

/// Whether a component names the directory above.
pub fn is_up(component: &[u8]) -> (yes: bool)
    ensures
        yes == is_ascent(component@),
{
    let yes: bool = component.len() == 2 && component[0] == DOT && component[1] == DOT;
    proof {
        if yes {
            assert(component@ =~= seq![DOT, DOT]);
        }
        if is_ascent(component@) {
            assert(component@[0] == DOT && component@[1] == DOT);
        }
    }
    yes
}

/// The key of the directory an entry is in, and the entry's name there.
pub fn split_key(key: &[u8]) -> (parts: (Vec<u8>, Vec<u8>))
    ensures
        parts.0@ == parent_of(key@),
        parts.1@ == name_of(key@),
{
    let len: usize = key.len();
    let mut at: usize = len;
    assert(key@.take(len as int) =~= key@);
    while at > 0 && key[at - 1] != SLASH
        invariant
            at <= len,
            len == key@.len(),
            last_slash(key@.take(at as int)) == last_slash(key@),
        decreases at,
    {
        assert(key@.take(at as int).drop_last() =~= key@.take(at - 1));
        at -= 1;
    }
    if at == 0 {
        assert(last_slash(key@) == -1);
        return (Vec::new(), copy_range(key, 0, len));
    }
    assert(last_slash(key@) == at - 1);
    (copy_range(key, 0, at - 1), copy_range(key, at, len))
}

/// Whether `a` comes before `b` where bytes are compared in turn and a prefix comes first.
pub open spec fn before(a: Seq<u8>, b: Seq<u8>) -> bool
    decreases a.len(),
{
    if b.len() == 0 {
        false
    } else if a.len() == 0 {
        true
    } else if a[0] != b[0] {
        a[0] < b[0]
    } else {
        before(a.drop_first(), b.drop_first())
    }
}

/// Whether `a` comes before `b`.
pub fn is_before(a: &[u8], b: &[u8]) -> (yes: bool)
    ensures
        yes == before(a@, b@),
{
    let mut i: usize = 0;
    assert(a@.skip(0) =~= a@ && b@.skip(0) =~= b@);
    while i < a.len() && i < b.len()
        invariant
            i <= a@.len(),
            i <= b@.len(),
            before(a@.skip(i as int), b@.skip(i as int)) == before(a@, b@),
        decreases a@.len() - i,
    {
        if a[i] != b[i] {
            return a[i] < b[i];
        }
        assert(a@.skip(i as int).drop_first() =~= a@.skip(i + 1));
        assert(b@.skip(i as int).drop_first() =~= b@.skip(i + 1));
        i += 1;
    }
    i < b.len()
}

/// Of two that differ one comes before the other, and not both.
pub proof fn lemma_before_total(a: Seq<u8>, b: Seq<u8>)
    ensures
        a != b ==> before(a, b) || before(b, a),
        !(before(a, b) && before(b, a)),
    decreases a.len(),
{
    if a.len() > 0 && b.len() > 0 {
        lemma_before_total(a.drop_first(), b.drop_first());
        if a[0] == b[0] && a.drop_first() == b.drop_first() {
            assert(a =~= seq![a[0]] + a.drop_first());
            assert(b =~= seq![b[0]] + b.drop_first());
        }
    } else if a.len() == 0 && b.len() == 0 {
        assert(a =~= b);
    }
}

/// What comes before something comes before what that comes before.
pub proof fn lemma_before_transitive(a: Seq<u8>, b: Seq<u8>, c: Seq<u8>)
    requires
        before(a, b),
        before(b, c),
    ensures
        before(a, c),
    decreases a.len(),
{
    if a.len() > 0 && a[0] == b[0] && b[0] == c[0] {
        lemma_before_transitive(a.drop_first(), b.drop_first(), c.drop_first());
    }
}

/// Whether a character may not be in a name: a control character, or one of those the format
/// gives a meaning elsewhere.
pub open spec fn is_reserved(ch: char) -> bool {
    (ch as u32) < 0x20 || ch == '"' || ch == '*' || ch == '/' || ch == ':' || ch == '<' || ch == '>'
        || ch == '?' || ch == '\\' || ch == '|'
}

/// Whether a character may not be in a name.
pub fn is_reserved_name_char(ch: char) -> (yes: bool)
    ensures
        yes == is_reserved(ch),
{
    (ch as u32) < 0x20 || ch == '"' || ch == '*' || ch == '/' || ch == ':' || ch == '<' || ch == '>'
        || ch == '?' || ch == '\\' || ch == '|'
}

/// Whether joining `name` onto a directory's path would name something else than an entry of
/// that directory.
pub open spec fn is_hostile(name: Seq<u8>) -> bool {
    ||| is_here(name)
    ||| is_ascent(name)
    ||| exists|i: int| 0 <= i < name.len() && (#[trigger] name[i] == SLASH || name[i] == 0)
}

/// Whether joining `name` onto a directory's path would name something else than an entry of
/// that directory.
pub fn is_hostile_component(name: &[u8]) -> (yes: bool)
    ensures
        yes == is_hostile(name@),
{
    if name.len() == 0 || is_up(name) {
        return true;
    }
    if name.len() == 1 && name[0] == DOT {
        assert(name@ =~= seq![DOT]);
        return true;
    }
    proof {
        if name@ == seq![DOT] {
            assert(name@.len() == 1 && name@[0] == DOT);
        }
    }
    let mut i: usize = 0;
    while i < name.len()
        invariant
            i <= name@.len(),
            !is_here(name@),
            !is_ascent(name@),
            forall|j: int| 0 <= j < i ==> name@[j] != SLASH && name@[j] != 0,
        decreases name@.len() - i,
    {
        if name[i] == SLASH || name[i] == 0 {
            return true;
        }
        i += 1;
    }
    false
}

/// Whether components are ones a path is made of: none empty, and no slash in any.
pub open spec fn plain(components: Seq<Seq<u8>>) -> bool {
    forall|i: int|
        0 <= i < components.len() ==> (#[trigger] components[i]).len() > 0 && !components[i].contains(
            SLASH,
        )
}

/// The components of a path are none of them empty, and have no slash.
pub proof fn lemma_components_are_plain(path: Seq<u8>)
    ensures
        plain(components_of(path)),
    decreases path.len(),
{
    if path.len() > 0 {
        let end = first_slash(path);
        lemma_first_slash(path);
        let first = path.subrange(0, end);
        let rest = if 0 <= end < path.len() {
            path.subrange(end + 1, path.len() as int)
        } else {
            Seq::empty()
        };
        lemma_components_are_plain(rest);
        let all = components_of(path);
        if !is_here(first) {
            assert(!first.contains(SLASH)) by {
                if first.contains(SLASH) {
                    let i = choose|i: int| 0 <= i < first.len() && first[i] == SLASH;
                    assert(path[i] == SLASH);
                }
            }
            assert forall|i: int| 0 <= i < all.len() implies (#[trigger] all[i]).len() > 0
                && !all[i].contains(SLASH) by {
                if i > 0 {
                    assert(all[i] == components_of(rest)[i - 1]);
                }
            }
        }
    }
}

/// A key's last component is its name, and the others are the key of its directory.
pub proof fn lemma_joined_parts(components: Seq<Seq<u8>>)
    requires
        plain(components),
        components.len() > 0,
    ensures
        joined(components).len() > 0,
        parent_of(joined(components)) == joined(components.drop_last()),
        name_of(joined(components)) == components.last(),
{
    let key = joined(components);
    let last = components.last();
    let before = joined(components.drop_last());
    lemma_last_slash(key);
    assert(last == components[components.len() - 1]);
    if components.len() == 1 {
        if last_slash(key) >= 0 {
            assert(last.contains(SLASH));
        }
        assert(components.drop_last() =~= Seq::<Seq<u8>>::empty());
        assert(key.subrange(0, key.len() as int) =~= key);
    } else {
        let at = before.len() as int;
        assert(key == before + seq![SLASH] + last);
        assert(key[at] == SLASH);
        let slash = last_slash(key);
        assert(slash == at) by {
            if slash > at {
                assert(key[slash] == last[slash - at - 1]);
                assert(last.contains(SLASH));
            }
        }
        assert(key.subrange(0, at) =~= before);
        assert(key.subrange(at + 1, key.len() as int) =~= last);
    }
}

/// Of two paths, the one with the smaller byte where they first differ comes first.
pub proof fn lemma_the_first_byte_that_differs_decides(a: Seq<u8>, b: Seq<u8>, at: int)
    requires
        0 <= at < a.len(),
        at < b.len(),
        forall|i: int| 0 <= i < at ==> #[trigger] a[i] == b[i],
        a[at] != b[at],
    ensures
        before(a, b) == (a[at] < b[at]),
    decreases at,
{
    if at > 0 {
        let x = a.drop_first();
        let y = b.drop_first();
        assert(a[0] == b[0]);
        assert forall|i: int| 0 <= i < at - 1 implies #[trigger] x[i] == y[i] by {
            assert(a[i + 1] == b[i + 1]);
        }
        lemma_the_first_byte_that_differs_decides(x, y, at - 1);
    }
}

/// A path comes before every longer one that begins with it, and not before itself.
pub proof fn lemma_a_beginning_comes_first(a: Seq<u8>, more: Seq<u8>)
    ensures
        before(a, a + more) == (more.len() > 0),
        !before(a + more, a),
    decreases a.len(),
{
    if a.len() > 0 {
        lemma_a_beginning_comes_first(a.drop_first(), more);
        assert((a + more).drop_first() =~= a.drop_first() + more);
    }
}

/// The last slash of a key parts its directory's key from its name.
pub proof fn lemma_a_key_is_its_parent_and_its_name(parent: Seq<u8>, name: Seq<u8>)
    requires
        forall|i: int| 0 <= i < name.len() ==> #[trigger] name[i] != 0x2F,
    ensures
        parent_of(parent + seq![0x2Fu8] + name) == parent,
        name_of(parent + seq![0x2Fu8] + name) == name,
        parent_of(name) == Seq::<u8>::empty(),
        name_of(name) == name,
{
    let key = parent + seq![0x2Fu8] + name;
    lemma_slash_before(parent + seq![0x2Fu8], name);
    assert(last_slash(parent + seq![0x2Fu8]) == parent.len());
    assert(key.subrange(0, parent.len() as int) =~= parent);
    assert(key.subrange(parent.len() as int + 1, key.len() as int) =~= name);
    lemma_slash_before(Seq::empty(), name);
    assert(Seq::<u8>::empty() + name =~= name);
    assert(name.subrange(0, name.len() as int) =~= name);
}

/// A name without a slash leaves the last slash where it was.
proof fn lemma_slash_before(head: Seq<u8>, name: Seq<u8>)
    requires
        forall|i: int| 0 <= i < name.len() ==> #[trigger] name[i] != 0x2F,
    ensures
        last_slash(head + name) == last_slash(head),
    decreases name.len(),
{
    if name.len() > 0 {
        let all = head + name;
        assert(all.last() == name[name.len() - 1]);
        assert(all.drop_last() =~= head + name.drop_last());
        lemma_slash_before(head, name.drop_last());
    } else {
        assert(head + name =~= head);
    }
}

/// A path ascends where one of its components is two dots, and the one spelling of a path is its
/// components with a slash between each and the next.
pub proof fn lemma_which_paths_ascend(path: Seq<u8>)
    ensures
        ascends(path) <==> components_of(path).contains(seq![0x2Eu8, 0x2Eu8]),
{
    let all = components_of(path);
    if all.contains(seq![0x2Eu8, 0x2Eu8]) {
        let i = choose|i: int| 0 <= i < all.len() && all[i] == seq![0x2Eu8, 0x2Eu8];
        assert(is_ascent(all[i]));
    }
}

/// A name cannot be joined onto a path exactly where it is empty, one dot, two dots, or has a slash
/// or a zero byte in it.
pub proof fn lemma_which_names_are_hostile(name: Seq<u8>)
    ensures
        is_hostile(name) <==> name.len() == 0 || name == seq![0x2Eu8] || name == seq![
            0x2Eu8,
            0x2Eu8,
        ] || name.contains(0x2F) || name.contains(0),
{
    if name.contains(0x2F) {
        let i = choose|i: int| 0 <= i < name.len() && name[i] == 0x2F;
        assert(name[i] == SLASH);
    }
    if name.contains(0) {
        let i = choose|i: int| 0 <= i < name.len() && name[i] == 0;
        assert(name[i] == 0);
    }
}

} // verus!
