//! File paths as text.
//!
//! A path is a text whose parts are separated by `/`. Its components are its
//! parts, with the empty ones and every `.` but a leading one left out, after a
//! root component where the text begins with `/`. Two paths are the same, and
//! are ordered, by their components.

use vstd::prelude::*;

use crate::text::{from_chars, lemma_split, same_chars, slice, split, split_of, to_chars, views};

verus! {

/// The root component.
pub open spec fn root() -> Seq<char> {
    seq!['/']
}

/// The component for the current directory.
pub open spec fn here() -> Seq<char> {
    seq!['.']
}

/// The component for the parent directory.
pub open spec fn up() -> Seq<char> {
    seq!['.', '.']
}

/// The parts that count as components: those that are not empty and, beyond
/// the first, not `.`.
pub open spec fn kept_parts(parts: Seq<Seq<char>>) -> Seq<Seq<char>>
    decreases parts.len(),
{
    if parts.len() == 0 {
        Seq::empty()
    } else {
        let rest = kept_parts(parts.drop_last());
        let part = parts.last();
        if part.len() > 0 && (part != here() || parts.len() == 1) {
            rest.push(part)
        } else {
            rest
        }
    }
}

/// Whether the path is absolute.
pub open spec fn absolute(path: Seq<char>) -> bool {
    path.len() > 0 && path[0] == '/'
}

/// The components of a path.
pub open spec fn components_of(path: Seq<char>) -> Seq<Seq<char>> {
    let kept = kept_parts(split_of(path, '/'));
    if absolute(path) {
        seq![root()] + kept
    } else {
        kept
    }
}

/// The final component of a path, where it names a file or a directory.
pub open spec fn file_name_of(path: Seq<char>) -> Option<Seq<char>> {
    let parts = components_of(path);
    if parts.len() > 0 && parts.last() != root() && parts.last() != here() && parts.last() != up() {
        Some(parts.last())
    } else {
        None
    }
}

/// The position of the last dot of `name`, or -1.
pub open spec fn last_dot(name: Seq<char>) -> int
    decreases name.len(),
{
    if name.len() == 0 {
        -1
    } else if name.last() == '.' {
        name.len() - 1
    } else {
        last_dot(name.drop_last())
    }
}

/// What follows the last dot of the file name, unless that dot begins it.
pub open spec fn extension_of(path: Seq<char>) -> Option<Seq<char>> {
    match file_name_of(path) {
        Some(name) => if last_dot(name) > 0 {
            Some(name.subrange(last_dot(name) + 1, name.len() as int))
        } else {
            None
        },
        None => None,
    }
}

/// The file name up to its extension.
pub open spec fn file_stem_of(path: Seq<char>) -> Option<Seq<char>> {
    match file_name_of(path) {
        Some(name) => if last_dot(name) > 0 {
            Some(name.subrange(0, last_dot(name)))
        } else {
            Some(name)
        },
        None => None,
    }
}

/// `name` taken from within `dir`.
pub open spec fn join_of(dir: Seq<char>, name: Seq<char>) -> Seq<char> {
    if absolute(name) {
        name
    } else if dir.len() == 0 || dir.last() == '/' {
        dir + name
    } else {
        dir.push('/') + name
    }
}

/// Whether the two texts name the same path.
pub open spec fn same_path(a: Seq<char>, b: Seq<char>) -> bool {
    components_of(a) == components_of(b)
}

/// Whether the path is absolute.
pub fn is_absolute(path: &str) -> (answer: bool)
    ensures
        answer == absolute(path@),
{
    let chars = to_chars(path);
    chars.len() > 0 && chars[0] == '/'
}

/// Whether `part` is the given one of the three special components.
fn is_here(part: &[char]) -> (answer: bool)
    ensures
        answer == (part@ == here()),
{
    if part.len() == 1 && part[0] == '.' {
        assert(part@ =~= here());
        true
    } else {
        false
    }
}

fn is_up(part: &[char]) -> (answer: bool)
    ensures
        answer == (part@ == up()),
{
    if part.len() == 2 && part[0] == '.' && part[1] == '.' {
        assert(part@ =~= up());
        true
    } else {
        false
    }
}

fn is_root(part: &[char]) -> (answer: bool)
    ensures
        answer == (part@ == root()),
{
    if part.len() == 1 && part[0] == '/' {
        assert(part@ =~= root());
        true
    } else {
        false
    }
}

/// The components of `path`.
pub fn components(path: &str) -> (parts: Vec<Vec<char>>)
    ensures
        views(parts@) == components_of(path@),
{
    let chars = to_chars(path);
    let pieces = split(&chars, '/');
    let mut parts: Vec<Vec<char>> = Vec::new();
    let ghost mut lead: Seq<Seq<char>> = Seq::empty();
    if chars.len() > 0 && chars[0] == '/' {
        let mut slash: Vec<char> = Vec::new();
        slash.push('/');
        parts.push(slash);
        proof {
            lead = seq![root()];
            assert(slash@ =~= root());
        }
    }
    proof {
        assert(views(parts@) =~= lead);
        assert(views(pieces@).take(0) =~= Seq::<Seq<char>>::empty());
        assert(lead + kept_parts(views(pieces@).take(0)) =~= lead);
    }
    for i in 0..pieces.len()
        invariant
            views(parts@) == lead + kept_parts(views(pieces@).take(i as int)),
    {
        let ghost before = views(parts@);
        proof {
            assert(views(pieces@).take(i + 1).drop_last() =~= views(pieces@).take(i as int));
            assert(views(pieces@).take(i + 1).last() == pieces@[i as int]@);
        }
        if pieces[i].len() > 0 && (i == 0 || !is_here(&pieces[i])) {
            let part = slice(&pieces[i], 0, pieces[i].len());
            assert(part@ =~= pieces@[i as int]@);
            parts.push(part);
            assert(views(parts@) =~= before.push(part@));
            assert(views(parts@) =~= lead + kept_parts(views(pieces@).take(i + 1)));
        }
    }
    assert(views(pieces@).take(pieces@.len() as int) =~= views(pieces@));
    assert(lead + kept_parts(views(pieces@)) =~= components_of(path@));
    parts
}

/// The final component of `path`, where it names a file or a directory.
pub fn file_name_chars(path: &str) -> (name: Option<Vec<char>>)
    ensures
        match name {
            Some(chars) => file_name_of(path@) == Some(chars@),
            None => file_name_of(path@) is None,
        },
{
    let mut parts = components(path);
    match parts.pop() {
        None => None,
        Some(last) => {
            assert(components_of(path@).last() == last@);
            if is_root(&last) || is_here(&last) || is_up(&last) {
                None
            } else {
                Some(last)
            }
        },
    }
}

/// The final component of `path`, where it names a file or a directory.
pub fn file_name(path: &str) -> (name: Option<String>)
    ensures
        match name {
            Some(text) => file_name_of(path@) == Some(text@),
            None => file_name_of(path@) is None,
        },
{
    match file_name_chars(path) {
        Some(chars) => Some(from_chars(&chars)),
        None => None,
    }
}

/// The position of the last dot of `name`, if it is not the first character.
fn dot_position(name: &[char]) -> (at: Option<usize>)
    ensures
        match at {
            Some(k) => k < name.len() && k == last_dot(name@) && last_dot(name@) > 0,
            None => last_dot(name@) <= 0,
        },
{
    let mut k: usize = name.len();
    assert(name@.take(k as int) =~= name@);
    while k > 1
        invariant
            k <= name.len(),
            last_dot(name@) == last_dot(name@.take(k as int)),
        decreases k,
    {
        assert(name@.take(k as int).drop_last() =~= name@.take(k - 1));
        if name[k - 1] == '.' {
            return Some(k - 1);
        }
        k -= 1;
    }
    assert(last_dot(name@.take(k as int)) <= 0) by {
        reveal_with_fuel(last_dot, 2);
    }
    None
}

/// What follows the last dot of the file name, unless that dot begins it.
pub fn extension(path: &str) -> (ext: Option<String>)
    ensures
        match ext {
            Some(text) => extension_of(path@) == Some(text@),
            None => extension_of(path@) is None,
        },
{
    match file_name_chars(path) {
        Some(name) => match dot_position(&name) {
            Some(k) => Some(from_chars(&slice(&name, k + 1, name.len()))),
            None => None,
        },
        None => None,
    }
}

/// The file name up to its extension.
pub fn file_stem(path: &str) -> (stem: Option<String>)
    ensures
        match stem {
            Some(text) => file_stem_of(path@) == Some(text@),
            None => file_stem_of(path@) is None,
        },
{
    match file_name_chars(path) {
        Some(name) => match dot_position(&name) {
            Some(k) => Some(from_chars(&slice(&name, 0, k))),
            None => Some(from_chars(&name)),
        },
        None => None,
    }
}

/// `name` taken from within `dir`.
pub fn join(dir: &str, name: &str) -> (path: String)
    ensures
        path@ == join_of(dir@, name@),
{
    let lead = to_chars(dir);
    if is_absolute(name) {
        name.to_owned()
    } else if lead.len() == 0 || lead[lead.len() - 1] == '/' {
        crate::text::join2(dir, name)
    } else {
        let mut path = dir.to_owned();
        path.push('/');
        crate::text::join2(&path, name)
    }
}

/// Whether some component of `path` climbs to the parent directory.
pub fn climbs(path: &str) -> (answer: bool)
    ensures
        answer == components_of(path@).contains(up()),
{
    let parts = components(path);
    for i in 0..parts.len()
        invariant
            views(parts@) == components_of(path@),
            forall|j: int| 0 <= j < i ==> components_of(path@)[j] != up(),
    {
        if is_up(&parts[i]) {
            assert(components_of(path@)[i as int] == up());
            return true;
        }
        assert(components_of(path@)[i as int] == parts@[i as int]@);
    }
    false
}

/// Whether the two texts name the same path.
pub fn same(a: &str, b: &str) -> (answer: bool)
    ensures
        answer == same_path(a@, b@),
{
    let left = components(a);
    let right = components(b);
    if left.len() != right.len() {
        assert(views(left@).len() != views(right@).len());
        return false;
    }
    for i in 0..left.len()
        invariant
            left.len() == right.len(),
            views(left@) == components_of(a@),
            views(right@) == components_of(b@),
            forall|j: int| 0 <= j < i ==> components_of(a@)[j] == components_of(b@)[j],
    {
        if !same_chars(&left[i], &right[i]) {
            assert(views(left@)[i as int] != views(right@)[i as int]);
            return false;
        }
        assert(views(left@)[i as int] == views(right@)[i as int]);
    }
    assert(components_of(a@) =~= components_of(b@));
    true
}

/// Whether the text can be the name of a file or directory: one component that is
/// not a special one.
pub open spec fn plain_name(name: Seq<char>) -> bool {
    name.len() > 0 && !name.contains('/') && name != here() && name != up()
}

proof fn lemma_split_append(head: Seq<char>, tail: Seq<char>)
    requires
        !tail.contains('/'),
    ensures
        split_of(head + tail, '/').len() == split_of(head, '/').len(),
        split_of(head + tail, '/').drop_last() == split_of(head, '/').drop_last(),
        split_of(head + tail, '/').last() == split_of(head, '/').last() + tail,
    decreases tail.len(),
{
    lemma_split(head, '/');
    if tail.len() == 0 {
        assert(head + tail =~= head);
        assert(split_of(head, '/').last() + tail =~= split_of(head, '/').last());
    } else {
        assert(tail.contains(tail.last()));
        assert(!tail.drop_last().contains('/')) by {
            if tail.drop_last().contains('/') {
                let i = tail.drop_last().index_of('/');
                assert(tail[i] == '/');
            }
        }
        lemma_split_append(head, tail.drop_last());
        assert((head + tail).drop_last() =~= head + tail.drop_last());
        let rest = split_of(head + tail.drop_last(), '/');
        let all = split_of(head + tail, '/');
        assert(all == rest.update(rest.len() - 1, rest.last().push(tail.last())));
        assert(all.drop_last() =~= rest.drop_last());
        assert(split_of(head, '/').last() + tail =~= (split_of(head, '/').last()
            + tail.drop_last()).push(tail.last()));
    }
}

/// Joining a plain name to a path adds one component.
pub proof fn lemma_join(dir: Seq<char>, name: Seq<char>)
    requires
        plain_name(name),
    ensures
        components_of(join_of(dir, name)) == components_of(dir).push(name),
        components_of(name) == seq![name],
{
    lemma_split(dir, '/');
    assert(name.contains(name[0]));
    assert(!absolute(name));
    lemma_split_append(Seq::empty(), name);
    let empty = split_of(Seq::<char>::empty(), '/');
    assert(Seq::<char>::empty() + name =~= name);
    assert(split_of(name, '/').last() =~= name);
    assert(split_of(name, '/').drop_last() =~= Seq::empty());
    assert(kept_parts(split_of(name, '/').drop_last()) =~= Seq::empty());
    assert(components_of(name) =~= seq![name]);
    if dir.len() == 0 {
        assert(dir + name =~= name);
        assert(dir =~= Seq::empty());
        assert(empty.drop_last() =~= Seq::empty());
        assert(kept_parts(empty) =~= Seq::empty());
        assert(components_of(dir).push(name) =~= seq![name]);
    } else {
        let head = if dir.last() == '/' {
            dir
        } else {
            dir.push('/')
        };
        assert(join_of(dir, name) == head + name);
        lemma_split_append(head, name);
        let parts = split_of(head, '/');
        assert(head.last() == '/');
        lemma_split(head.drop_last(), '/');
        assert(parts.last() =~= Seq::empty());
        assert(parts.last() + name =~= name);
        assert(parts.len() >= 2);
        let all = split_of(head + name, '/');
        assert(kept_parts(all) == kept_parts(parts.drop_last()).push(name));
        assert(kept_parts(parts) == kept_parts(parts.drop_last()));
        if dir.last() != '/' {
            assert(head.drop_last() =~= dir);
            assert(parts.drop_last() =~= split_of(dir, '/'));
        }
        assert(kept_parts(split_of(dir, '/')) == kept_parts(parts.drop_last()));
        assert((head + name)[0] == dir[0]);
        assert(components_of(join_of(dir, name)) =~= components_of(dir).push(name));
    }
}

/// The components of a path: the root first if the path begins with a slash, and then what
/// stands between its slashes, without what is empty, and without a dot unless the path
/// begins with it. None but the root holds a slash.
pub proof fn law_components_stand_between_slashes(path: Seq<char>)
    ensures
        ({
            let parts = components_of(path);
            let absolute = path.len() > 0 && path[0] == '/';
            &&& absolute ==> parts.len() > 0 && parts[0] == seq!['/']
            &&& forall|i: int|
                #![trigger parts[i]]
                0 <= i < parts.len() && (i > 0 || !absolute) ==> {
                    &&& parts[i].len() > 0
                    &&& !parts[i].contains('/')
                    &&& split_of(path, '/').contains(parts[i])
                    &&& parts[i] == seq!['.'] ==> i == 0 && split_of(path, '/')[0] == seq!['.']
                }
            &&& forall|k: int|
                #![trigger split_of(path, '/')[k]]
                0 <= k < split_of(path, '/').len() && split_of(path, '/')[k].len() > 0 && split_of(
                    path,
                    '/',
                )[k] != seq!['.'] ==> parts.contains(split_of(path, '/')[k])
        }),
{
    let all = split_of(path, '/');
    let kept = kept_parts(all);
    let parts = components_of(path);
    crate::text::law_split_text_joins_back(path, '/');
    lemma_kept(all, kept);
    assert forall|i: int|
        #![trigger parts[i]]
        0 <= i < parts.len() && (i > 0 || !absolute(path)) implies {
        &&& parts[i].len() > 0
        &&& !parts[i].contains('/')
        &&& all.contains(parts[i])
        &&& parts[i] == seq!['.'] ==> i == 0 && all[0] == seq!['.']
    } by {
        let j = if absolute(path) {
            i - 1
        } else {
            i
        };
        assert(kept[j] == parts[i]);
        let k = all.index_of(kept[j]);
        assert(!all[k].contains('/'));
        if parts[i] == here() && absolute(path) {
            lemma_absolute_begins_empty(path);
        }
    }
    assert forall|k: int|
        #![trigger all[k]]
        0 <= k < all.len() && all[k].len() > 0 && all[k] != seq!['.'] implies parts.contains(
        all[k],
    ) by {
        assert(kept.contains(all[k]));
        let j = kept.index_of(all[k]);
        if absolute(path) {
            assert(parts[j + 1] == all[k]);
        } else {
            assert(parts[j] == all[k]);
        }
    }
    if absolute(path) {
        assert(parts[0] == root());
    }
}

proof fn lemma_kept(all: Seq<Seq<char>>, kept: Seq<Seq<char>>)
    requires
        kept == kept_parts(all),
    ensures
        forall|j: int|
            #![trigger kept[j]]
            0 <= j < kept.len() ==> kept[j].len() > 0 && all.contains(kept[j]) && (kept[j]
                == seq!['.'] ==> j == 0 && all.len() > 0 && all[0] == seq!['.']),
        forall|k: int|
            #![trigger all[k]]
            0 <= k < all.len() && all[k].len() > 0 && all[k] != seq!['.'] ==> kept.contains(all[k]),
    decreases all.len(),
{
    if all.len() > 0 {
        let front = all.drop_last();
        let rest = kept_parts(front);
        lemma_kept(front, rest);
        let part = all.last();
        assert forall|j: int|
            #![trigger kept[j]]
            0 <= j < kept.len() implies kept[j].len() > 0 && all.contains(kept[j]) && (kept[j]
            == seq!['.'] ==> j == 0 && all[0] == seq!['.']) by {
            if j < rest.len() {
                assert(kept[j] == rest[j]);
                let k = front.index_of(rest[j]);
                assert(all[k] == rest[j]);
            } else {
                assert(all[all.len() - 1] == kept[j]);
                if part == here() {
                    assert(front.len() == 0);
                }
            }
        }
        assert forall|k: int|
            #![trigger all[k]]
            0 <= k < all.len() && all[k].len() > 0 && all[k] != seq!['.'] implies kept.contains(
            all[k],
        ) by {
            if k < front.len() {
                assert(front[k] == all[k]);
                let j = rest.index_of(all[k]);
                assert(kept[j] == all[k]);
            } else {
                assert(kept[rest.len() as int] == all[k]);
            }
        }
    }
}

/// What stands before the first slash of an absolute path is empty.
proof fn lemma_absolute_begins_empty(path: Seq<char>)
    requires
        absolute(path),
    ensures
        split_of(path, '/').len() > 1,
        split_of(path, '/')[0].len() == 0,
    decreases path.len(),
{
    let front = path.drop_last();
    if front.len() == 0 {
        assert(path.last() == '/');
        assert(split_of(front, '/') =~= seq![Seq::<char>::empty()]);
    } else {
        assert(front[0] == path[0]);
        lemma_absolute_begins_empty(front);
    }
}

/// The name of a file is its last component, unless that is the root, the current
/// directory or the one above. Its extension is what follows its last dot, and its stem
/// what stands before it; a name without a dot, or with its only dot in front, has no
/// extension and is its own stem.
pub proof fn law_name_stem_and_extension(path: Seq<char>)
    ensures
        ({
            let parts = components_of(path);
            let named = parts.len() > 0 && parts.last() != seq!['/'] && parts.last() != seq!['.']
                && parts.last() != seq!['.', '.'];
            &&& named ==> file_name_of(path) == Some(parts.last())
            &&& !named ==> file_name_of(path) is None && extension_of(path) is None && file_stem_of(
                path,
            ) is None
        }),
        file_name_of(path) matches Some(name) ==> {
            &&& extension_of(path) is Some <==> exists|k: int|
                0 < k < name.len() && #[trigger] name[k] == '.'
            &&& extension_of(path) matches Some(extension) ==> {
                &&& !extension.contains('.')
                &&& file_stem_of(path) is Some && (file_stem_of(path)->0).len() > 0
                &&& name == (file_stem_of(path)->0).push('.') + extension
            }
            &&& extension_of(path) is None ==> file_stem_of(path) == Some(name)
        },
{
    match file_name_of(path) {
        Some(name) => {
            lemma_last_dot_is_last(name);
            let at = last_dot(name);
            if at > 0 {
                let extension = name.subrange(at + 1, name.len() as int);
                if extension.contains('.') {
                    let k = extension.index_of('.');
                    assert(name[at + 1 + k] == '.');
                }
                assert(name =~= name.subrange(0, at).push('.') + extension);
                assert(name[at] == '.');
            }
        },
        None => {},
    }
}

proof fn lemma_last_dot_is_last(name: Seq<char>)
    ensures
        -1 <= last_dot(name) < name.len(),
        last_dot(name) >= 0 ==> name[last_dot(name)] == '.',
        forall|k: int| last_dot(name) < k < name.len() ==> #[trigger] name[k] != '.',
    decreases name.len(),
{
    if name.len() > 0 && name.last() != '.' {
        let front = name.drop_last();
        lemma_last_dot_is_last(front);
        assert forall|k: int| last_dot(name) < k < name.len() implies #[trigger] name[k] != '.' by {
            if k < front.len() {
                assert(front[k] == name[k]);
            }
        }
    }
}

/// Joining puts a slash between a directory and a name, unless the directory is empty or
/// ends with one; a name that begins with a slash stands alone.
pub proof fn law_joining_puts_one_slash_between(dir: Seq<char>, name: Seq<char>)
    ensures
        name.len() > 0 && name[0] == '/' ==> join_of(dir, name) == name,
        (name.len() == 0 || name[0] != '/') && dir.len() == 0 ==> join_of(dir, name) == name,
        (name.len() == 0 || name[0] != '/') && dir.len() > 0 && dir.last() == '/' ==> join_of(
            dir,
            name,
        ) == dir + name,
        (name.len() == 0 || name[0] != '/') && dir.len() > 0 && dir.last() != '/' ==> join_of(
            dir,
            name,
        ) == dir + seq!['/'] + name,
{
    assert(Seq::<char>::empty() + name =~= name);
    if dir.len() == 0 {
        assert(dir + name =~= name);
    }
    assert(dir.push('/') + name =~= dir + seq!['/'] + name);
}

/// Two paths are the same exactly if they have the same components in the same places.
pub proof fn law_same_paths_have_the_same_components(a: Seq<char>, b: Seq<char>)
    ensures
        same_path(a, b) <==> components_of(a).len() == components_of(b).len() && forall|i: int|
            0 <= i < components_of(a).len() ==> #[trigger] components_of(a)[i] == components_of(
                b,
            )[i],
        same_path(a, a),
        same_path(a, b) ==> same_path(b, a),
{
    if components_of(a).len() == components_of(b).len() && (forall|i: int|
        0 <= i < components_of(a).len() ==> #[trigger] components_of(a)[i] == components_of(b)[i]) {
        assert(components_of(a) =~= components_of(b));
    }
}

} // verus!
