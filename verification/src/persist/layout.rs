//! Every namespace persists into a folder of its own inside the persistence
//! root, the default one included:
//!
//! ```text
//! <root>/default/512, /1024, /tables.meta
//! <root>/alpha/512,   /1024, /tables.meta
//! ```

use vstd::prelude::*;
use vstd::utf8::{encode_utf8, is_ascii_chars, is_ascii_chars_encode_utf8};

verus! {

/// The longest namespace name, in bytes.
pub const MAX_NAMESPACE_NAME_LEN: usize = 64;

/// The folder of a namespace.
pub open spec fn namespace_folder(root: Seq<char>, namespace: Seq<char>) -> Seq<char> {
    root + "/"@ + namespace
}

/// Where a namespace persists.
pub fn get_namespace_folder(root: &str, namespace: &str) -> (r: String)
    ensures
        r@ == namespace_folder(root@, namespace@),
{
    let mut folder = root.to_owned();
    folder.append("/");
    folder.append(namespace);
    folder
}

/// Whether a namespace name may hold the character.
pub open spec fn is_name_char(c: char) -> bool {
    ||| 'a' <= c && c <= 'z'
    ||| 'A' <= c && c <= 'Z'
    ||| '0' <= c && c <= '9'
    ||| c == '-'
    ||| c == '_'
    ||| c == '.'
}

/// Whether a name is one of a namespace.
pub open spec fn is_namespace_name(name: Seq<char>) -> bool {
    &&& 0 < name.len()
    &&& encode_utf8(name).len() <= MAX_NAMESPACE_NAME_LEN
    &&& exists|i: int| 0 <= i < name.len() && #[trigger] name[i] != '.'
    &&& forall|i: int| 0 <= i < name.len() ==> is_name_char(#[trigger] name[i])
}

/// A namespace name becomes a folder, so this is what stands between a caller
/// and the file system: a name which is not one this server would have written
/// itself is refused rather than resolved. It is also what keeps a name from
/// being written and then never found again - a folder this says no to is
/// skipped at the next start, and every row in it would be unreachable.
pub fn is_valid_namespace_name(name: &str) -> (r: bool)
    ensures
        r == is_namespace_name(name@),
{
    if name.is_empty() || name.as_bytes().len() > MAX_NAMESPACE_NAME_LEN {
        return false;
    }
    // A name made of nothing but dots is `.` or `..` - the folder itself and
    // the one above it. Both pass every other check here, and `..` is one level
    // out of whatever folder the name is resolved inside.
    let mut only_dots = true;
    for c in it: name.chars()
        invariant
            it.seq() == name@,
            it.index() <= name@.len(),
            forall|i: int| 0 <= i < it.index() ==> is_name_char(#[trigger] name@[i]),
            only_dots ==> forall|i: int| 0 <= i < it.index() ==> #[trigger] name@[i] == '.',
            !only_dots ==> exists|i: int| 0 <= i < it.index() && #[trigger] name@[i] != '.',
    {
        assert(name@[it.index() as int] == c);
        let allowed = ('a' <= c && c <= 'z') || ('A' <= c && c <= 'Z') || ('0' <= c && c <= '9')
            || c == '-' || c == '_' || c == '.';
        if !allowed {
            return false;
        }
        if c != '.' {
            only_dots = false;
        }
    }
    !only_dots
}

/// The folders among some which are namespaces.
pub open spec fn namespaces_of(folders: Seq<String>) -> Seq<String>
    decreases folders.len(),
{
    if folders.len() == 0 {
        Seq::empty()
    } else if is_namespace_name(folders.last()@) {
        namespaces_of(folders.drop_last()).push(folders.last())
    } else {
        namespaces_of(folders.drop_last())
    }
}

/// The namespaces among the folders of the persistence root. The others are
/// skipped.
pub fn namespaces_among(folders: Vec<String>) -> (r: Vec<String>)
    ensures
        r@ == namespaces_of(folders@),
{
    let mut r: Vec<String> = Vec::new();
    assert(folders@.take(0) =~= Seq::<String>::empty());
    for folder in it: folders
        invariant
            it.seq() == folders@,
            it.index() <= folders@.len(),
            r@ == namespaces_of(folders@.take(it.index() as int)),
    {
        assert(folders@.take(it.index() + 1).drop_last() =~= folders@.take(it.index() as int));
        if is_valid_namespace_name(folder.as_str()) {
            r.push(folder);
        }
    }
    assert(folders@.take(folders@.len() as int) =~= folders@);
    r
}

/// A namespace name has no path in it and is not the name of the folder it is in
/// or of the one above.
pub proof fn a_namespace_name_stays_inside_the_root(name: Seq<char>)
    requires
        is_namespace_name(name),
    ensures
        !name.contains('/'),
        !name.contains('\\'),
        !name.contains('\0'),
        name != "."@,
        name != ".."@,
{
    reveal_strlit(".");
    reveal_strlit("..");
    let i = choose|i: int| 0 <= i < name.len() && #[trigger] name[i] != '.';
    if name == "."@ {
        assert(name[i] == "."@[i]);
    }
    if name == ".."@ {
        assert(name[i] == ".."@[i]);
    }
}

/// A folder which is written for a namespace is found again at the next start.
pub proof fn a_written_namespace_is_found_again(folders: Seq<String>, i: int)
    requires
        0 <= i < folders.len(),
        is_namespace_name(folders[i]@),
    ensures
        namespaces_of(folders).contains(folders[i]),
    decreases folders.len(),
{
    let fewer = folders.drop_last();
    let found = namespaces_of(folders);
    if i < fewer.len() {
        a_written_namespace_is_found_again(fewer, i);
        let before = namespaces_of(fewer);
        let j = choose|j: int| 0 <= j < before.len() && before[j] == folders[i];
        assert(found[j] == folders[i]);
    } else {
        assert(found[found.len() - 1] == folders[i]);
    }
}

/// A namespace may be called anything of up to 64 letters, digits, dashes, underscores and
/// dots, as long as it is not dots alone; and nothing else.
pub proof fn what_a_namespace_may_be_called(name: Seq<char>)
    ensures
        is_namespace_name(name) <==> {
            &&& 1 <= name.len() <= 64
            &&& exists|i: int| 0 <= i < name.len() && #[trigger] name[i] != '.'
            &&& forall|i: int|
                0 <= i < name.len() ==> {
                    let c = #[trigger] name[i] as int;
                    ||| 0x61 <= c <= 0x7a
                    ||| 0x41 <= c <= 0x5a
                    ||| 0x30 <= c <= 0x39
                    ||| c == 0x2d
                    ||| c == 0x5f
                    ||| c == 0x2e
                }
        },
{
    if forall|i: int| 0 <= i < name.len() ==> is_name_char(#[trigger] name[i]) {
        assert(is_ascii_chars(name));
        is_ascii_chars_encode_utf8(name);
    }
    assert forall|i: int| 0 <= i < name.len() implies is_name_char(#[trigger] name[i]) == ({
        let c = name[i] as int;
        ||| 0x61 <= c <= 0x7a
        ||| 0x41 <= c <= 0x5a
        ||| 0x30 <= c <= 0x39
        ||| c == 0x2d
        ||| c == 0x5f
        ||| c == 0x2e
    }) by {}
}

/// At a start exactly the folders which can be namespaces are, in the order they were found
/// in.
pub proof fn every_namespace_folder_is_found(folders: Seq<String>)
    ensures
        namespaces_of(folders) == folders.filter(|folder: String| is_namespace_name(folder@)),
    decreases folders.len(),
{
    reveal(Seq::filter);
    if folders.len() > 0 {
        every_namespace_folder_is_found(folders.drop_last());
    }
}

/// Every namespace has a folder of its own, right below the root.
pub proof fn namespaces_do_not_share_a_folder(root: Seq<char>, a: Seq<char>, b: Seq<char>)
    ensures
        namespace_folder(root, a) == namespace_folder(root, b) <==> a == b,
        namespace_folder(root, a).take(root.len() as int) == root,
        namespace_folder(root, a).skip(root.len() as int) == seq!['/'] + a,
{
    reveal_strlit("/");
    let (x, y) = (namespace_folder(root, a), namespace_folder(root, b));
    assert(x.take(root.len() as int) =~= root);
    assert(x.skip(root.len() as int) =~= seq!['/'] + a);
    assert(x.skip(root.len() as int + 1) =~= a);
    assert(y.skip(root.len() as int + 1) =~= b);
}

}
