//! Where backups are kept, and what they are called.

use crate::app::{namespace_name, resolve_name};
use crate::persist::layout::{is_namespace_name, is_valid_namespace_name};
use crate::names::Named;
use crate::sorting::{is_sorted, sort, Ordered};
use crate::text::{
    append_decimal, chars_of, decimal, digit_char, lemma_common_front,
    lemma_first_char_decides, lemma_front_decides,     text_before,
};
use vstd::prelude::*;
use vstd::utf8::{encode_utf8, is_ascii_chars};

verus! {

/// How many backups of one namespace can be taken inside one second. The stamp a
/// name is made of has a second of resolution, so this is how far the suffix
/// which tells them apart counts.
pub const MAX_BACKUPS_PER_SECOND: usize = 99;

/// How long the stamp of a name is: `20260810T071415`.
pub const STAMP_LEN: usize = 15;

/// A backup on disk.
pub struct BackupOnDisk {
    /// What every other call names it by.
    pub name: String,
    pub size: u64,
}

impl Named for BackupOnDisk {
    open spec fn called(&self) -> Seq<char> {
        self.name@
    }

    fn get_name(&self) -> (r: &str) {
        self.name.as_str()
    }
}

/// Where backups are kept.
///
/// Laid out the way the persistence root is - a folder per namespace, the
/// default one included - so a namespace's snapshots are its own and how many to
/// keep is counted per namespace.
///
/// **Not** inside the persistence root: every folder there is loaded as a
/// namespace at start up, so a `backups` folder next to them would come back as
/// a namespace called "backups". It is a setting of its own, which is also what
/// an operator wants - a backup on the same disk as the data is half a backup.
///
/// Without that setting there is no backups folder at all and every call says
/// so. Writing gigabytes into a path nobody named is worse than refusing.
pub struct BackupsRepo {
    folder: Option<String>,
}

/// What everything is answered with while there is nowhere to put backups.
pub open spec fn not_configured() -> Seq<char> {
    "Backups are not configured: set BackupsDest in the settings to the folder they belong in"@
}

/// A path without the separators at its end.
pub open spec fn without_trailing_separators(path: Seq<char>) -> Seq<char>
    decreases path.len(),
{
    if path.len() > 0 && (path.last() == '/' || path.last() == '\\') {
        without_trailing_separators(path.drop_last())
    } else {
        path
    }
}

/// The folder of a namespace's backups, or why there is none.
pub open spec fn backups_folder(folder: Option<Seq<char>>, name_space: Seq<char>) -> Result<
    Seq<char>,
    Seq<char>,
> {
    match folder {
        None => Err(not_configured()),
        Some(folder) => if is_namespace_name(namespace_name(name_space)) {
            Ok(without_trailing_separators(folder) + "/"@ + namespace_name(name_space))
        } else {
            Err("'"@ + namespace_name(name_space) + "' is not a namespace name"@)
        },
    }
}

/// Whether a name is one of a backup: a bare file name. Anything with a path in it
/// would step out of the namespace's own folder - into another namespace's
/// backups, or out of the backups folder altogether.
pub open spec fn is_backup_name(name: Seq<char>) -> bool {
    &&& !name.contains('/')
    &&& !name.contains('\\')
    &&& !has_two_dots(name)
    &&& ends_with_zip(name)
}

/// Whether two dots stand side by side.
pub open spec fn has_two_dots(name: Seq<char>) -> bool {
    exists|i: int| 0 <= i < name.len() - 1 && #[trigger] name[i] == '.' && name[i + 1] == '.'
}

/// Whether a name ends like that of a zip.
pub open spec fn ends_with_zip(name: Seq<char>) -> bool {
    name.len() >= 4 && name.skip(name.len() - 4) == seq!['.', 'z', 'i', 'p']
}

/// A moment's text without the separators of its date and its time.
pub open spec fn bare_stamp(moment: Seq<char>) -> Seq<char>
    decreases moment.len(),
{
    if moment.len() == 0 {
        Seq::empty()
    } else if moment.last() == ':' || moment.last() == '-' {
        bare_stamp(moment.drop_last())
    } else {
        bare_stamp(moment.drop_last()).push(moment.last())
    }
}

/// A number written with at least two digits.
pub open spec fn two_digits(n: nat) -> Seq<char> {
    if n < 10 {
        "0"@ + decimal(n)
    } else {
        decimal(n)
    }
}

/// What the backup of a second is called, the first one and the later ones.
pub open spec fn backup_name(stamp: Seq<char>, attempt: nat) -> Seq<char> {
    if attempt < 2 {
        stamp + ".zip"@
    } else {
        stamp + "_"@ + two_digits(attempt) + ".zip"@
    }
}

impl BackupsRepo {
    /// The folder everything is in, if there is one.
    pub closed spec fn folder(&self) -> Option<Seq<char>> {
        match self.folder {
            Some(folder) => Some(folder@),
            None => None,
        }
    }

    pub fn new(folder: Option<String>) -> (r: Self)
        ensures
            r.folder() == (match folder {
                Some(folder) => Some(folder@),
                None => None,
            }),
    {
        BackupsRepo { folder }
    }

    /// Whether there is somewhere to put backups.
    pub fn is_configured(&self) -> (r: bool)
        ensures
            r == self.folder() is Some,
    {
        self.folder.is_some()
    }

    /// The folder of a namespace's backups.
    ///
    /// The namespace comes from a caller and becomes a path. A name which is
    /// not one this server would have written is refused rather than
    /// resolved - it could otherwise step out of the backups folder
    /// altogether.
    pub fn get_folder(&self, name_space: &str) -> (r: Result<String, String>)
        ensures
            match r {
                Ok(folder) => backups_folder(self.folder(), name_space@) == Ok::<
                    Seq<char>,
                    Seq<char>,
                >(folder@),
                Err(err) => backups_folder(self.folder(), name_space@) == Err::<
                    Seq<char>,
                    Seq<char>,
                >(err@),
            },
    {
        let folder = match &self.folder {
            Some(folder) => folder,
            None => return Err(
                "Backups are not configured: set BackupsDest in the settings to the folder they belong in".to_owned(),
            ),
        };
        let name_space = resolve_name(name_space);
        if !is_valid_namespace_name(name_space) {
            let mut err = "'".to_owned();
            err.append(name_space);
            err.append("' is not a namespace name");
            return Err(err);
        }
        let mut path = trim_separators(folder.as_str());
        path.append("/");
        path.append(name_space);
        Ok(path)
    }

    /// Where a backup of a namespace is.
    pub fn backup_path(&self, name_space: &str, name: &str) -> (r: Result<String, String>)
        ensures
            match (backups_folder(self.folder(), name_space@), r) {
                (Ok(folder), Ok(path)) => is_backup_name(name@) && path@ == folder + "/"@ + name@,
                (Ok(folder), Err(err)) => !is_backup_name(name@) && err@ == "'"@ + name@
                    + "' is not the name of a backup"@,
                (Err(why), Err(err)) => err@ == why,
                (Err(why), Ok(path)) => false,
            },
    {
        let mut path = match self.get_folder(name_space) {
            Ok(folder) => folder,
            Err(err) => return Err(err),
        };
        if !is_valid_name(name) {
            let mut err = "'".to_owned();
            err.append(name);
            err.append("' is not the name of a backup");
            return Err(err);
        }
        path.append("/");
        path.append(name);
        Ok(path)
    }
}

fn trim_separators(path: &str) -> (r: String)
    ensures
        r@ == without_trailing_separators(path@),
{
    let chars = chars_of(path);
    let mut end: usize = chars.len();
    assert(path@.take(path@.len() as int) =~= path@);
    while end > 0 && (chars[end - 1] == '/' || chars[end - 1] == '\\')
        invariant
            end <= chars@.len(),
            chars@ == path@,
            without_trailing_separators(path@) == without_trailing_separators(
                path@.take(end as int),
            ),
        decreases end,
    {
        assert(path@.take(end as int).drop_last() =~= path@.take(end - 1));
        end = end - 1;
    }
    let mut r = String::new();
    for i in 0..end
        invariant
            end <= chars@.len(),
            chars@ == path@,
            r@ == path@.take(i as int),
    {
        r.push(chars[i]);
        assert(r@ =~= path@.take(i + 1));
    }
    r
}

/// A snapshot is addressed by its bare file name inside its namespace's own
/// folder. Anything with a path in it is refused rather than resolved.
pub fn is_valid_name(name: &str) -> (r: bool)
    ensures
        r == is_backup_name(name@),
{
    let chars = chars_of(name);
    let count: usize = chars.len();
    if count < 4 {
        return false;
    }
    assert(name@.skip(count - 4) =~= seq![
        name@[count - 4],
        name@[count - 3],
        name@[count - 2],
        name@[count - 1],
    ]);
    if chars[count - 4] != '.' || chars[count - 3] != 'z' || chars[count - 2] != 'i'
        || chars[count - 1] != 'p' {
        proof {
            if ends_with_zip(name@) {
                let end = name@.skip(count - 4);
                assert(end[0] == '.' && end[1] == 'z' && end[2] == 'i' && end[3] == 'p');
            }
        }
        return false;
    }
    assert(name@.skip(count - 4) =~= seq!['.', 'z', 'i', 'p']);
    for i in 0..count
        invariant
            count == chars@.len(),
            chars@ == name@,
            forall|j: int| 0 <= j < i ==> #[trigger] name@[j] != '/' && name@[j] != '\\',
            forall|j: int|
                0 <= j < i && j < count - 1 ==> !(#[trigger] name@[j] == '.' && name@[j + 1] == '.'),
    {
        let c: char = chars[i];
        if c == '/' || c == '\\' {
            assert(name@.contains(c));
            return false;
        }
        if c == '.' && i + 1 < count && chars[i + 1] == '.' {
            assert(name@[i as int] == '.' && name@[i + 1] == '.');
            return false;
        }
    }
    true
}

/// The first characters of a moment's text which make up a stamp.
fn stamp_of(moment: &str) -> (r: String)
    requires
        STAMP_LEN <= bare_stamp(moment@).len(),
    ensures
        r@ == bare_stamp(moment@).take(STAMP_LEN as int),
{
    let chars = chars_of(moment);
    let mut bare: Vec<char> = Vec::new();
    assert(moment@.take(0) =~= Seq::<char>::empty());
    for i in 0..chars.len()
        invariant
            chars@ == moment@,
            bare@ == bare_stamp(moment@.take(i as int)),
    {
        assert(moment@.take(i + 1).drop_last() =~= moment@.take(i as int));
        let c: char = chars[i];
        if c != ':' && c != '-' {
            bare.push(c);
        }
    }
    assert(moment@.take(moment@.len() as int) =~= moment@);
    let mut r = String::new();
    for i in 0..STAMP_LEN
        invariant
            STAMP_LEN <= bare@.len(),
            r@ == bare@.take(i as int),
    {
        r.push(bare[i]);
        assert(r@ =~= bare@.take(i + 1));
    }
    r
}

/// The name carries the moment it was taken, so the names sort the way the
/// backups happened: `20260810T071415.zip`. The moment comes as its RFC 3339 text.
///
/// The stamp counts in seconds, and a manual backup lands in the same second as
/// the timer's often enough - the timer takes one on the interval an operator
/// asked for, and an operator who wants one now asks for it around then. The
/// second and later of one second are `_02`, `_03`: without them the newer one
/// silently overwrote the older, and `MaxBackups` counted the two as one. The
/// suffix sorts after the bare name and before the next second's, so sorting by
/// name is still sorting by when they happened.
pub fn compile_name(moment: &str, attempt: usize) -> (r: String)
    requires
        is_ascii_chars(moment@),
        STAMP_LEN <= bare_stamp(moment@).len(),
    ensures
        r@ == backup_name(bare_stamp(moment@).take(STAMP_LEN as int), attempt as nat),
{
    let mut name = stamp_of(moment);
    if attempt >= 2 {
        name.append("_");
        if attempt < 10 {
            name.append("0");
        }
        append_decimal(&mut name, attempt as u128);
    }
    name.append(".zip");
    proof {
        let stamp = bare_stamp(moment@).take(STAMP_LEN as int);
        if attempt >= 2 {
            assert(name@ =~= stamp + "_"@ + two_digits(attempt as nat) + ".zip"@);
        }
    }
    name
}

/// The search for a name nobody has: every name a backup of one second can have,
/// one after the other.
pub struct NameSearch {
    attempt: usize,
}

impl NameSearch {
    /// How many names were tried.
    pub closed spec fn tried(&self) -> nat {
        self.attempt as nat
    }

    pub open spec fn wf(&self) -> bool {
        self.tried() <= MAX_BACKUPS_PER_SECOND
    }

    /// Nothing was tried yet.
    pub fn new() -> (r: Self)
        ensures
            r.wf(),
            r.tried() == 0,
    {
        NameSearch { attempt: 0 }
    }

    /// The next name to try. There is none once every name was tried.
    pub fn next(&mut self, moment: &str) -> (r: Result<String, String>)
        requires
            old(self).wf(),
            is_ascii_chars(moment@),
            STAMP_LEN <= bare_stamp(moment@).len(),
        ensures
            final(self).wf(),
            match r {
                Ok(name) => old(self).tried() < MAX_BACKUPS_PER_SECOND && final(self).tried()
                    == old(self).tried() + 1 && name@ == backup_name(
                    bare_stamp(moment@).take(STAMP_LEN as int),
                    final(self).tried(),
                ),
                Err(err) => old(self).tried() == MAX_BACKUPS_PER_SECOND && final(self).tried()
                    == old(self).tried() && err@ == decimal(MAX_BACKUPS_PER_SECOND as nat)
                    + " backups of this namespace were already taken this second"@,
            },
    {
        if self.attempt >= MAX_BACKUPS_PER_SECOND {
            let mut err = String::new();
            append_decimal(&mut err, MAX_BACKUPS_PER_SECOND as u128);
            err.append(" backups of this namespace were already taken this second");
            proof {
                assert(err@ =~= decimal(MAX_BACKUPS_PER_SECOND as nat)
                    + " backups of this namespace were already taken this second"@);
            }
            return Err(err);
        }
        self.attempt = self.attempt + 1;
        Ok(compile_name(moment, self.attempt))
    }
}

/// The backups among some files.
pub open spec fn backups_of(files: Seq<BackupOnDisk>) -> Seq<BackupOnDisk>
    decreases files.len(),
{
    if files.len() == 0 {
        Seq::empty()
    } else if is_backup_name(files.last().name@) {
        backups_of(files.drop_last()).push(files.last())
    } else {
        backups_of(files.drop_last())
    }
}

/// The backups among the files of a folder, in the order of their names. The name
/// carries the moment a backup was taken, so sorting by it is sorting by when they
/// happened.
pub fn list_backups(files: Vec<BackupOnDisk>) -> (r: Vec<BackupOnDisk>)
    ensures
        is_sorted(r@),
        r@.to_multiset() == backups_of(files@).to_multiset(),
        r@.len() == backups_of(files@).len(),
{
    let mut backups: Vec<BackupOnDisk> = Vec::new();
    assert(files@.take(0) =~= Seq::<BackupOnDisk>::empty());
    for file in it: files
        invariant
            it.seq() == files@,
            it.index() <= files@.len(),
            backups@ == backups_of(files@.take(it.index() as int)),
    {
        assert(files@.take(it.index() + 1).drop_last() =~= files@.take(it.index() as int));
        if is_valid_name(file.name.as_str()) {
            backups.push(file);
        }
    }
    assert(files@.take(files@.len() as int) =~= files@);
    sort(backups)
}

/// The backups to remove so that only the newest `max_backups` stay: all but the
/// last ones of the list.
pub fn backups_to_remove(all: &Vec<BackupOnDisk>, max_backups: usize) -> (r: Vec<String>)
    ensures
        r@.len() == (if all@.len() <= max_backups {
            0
        } else {
            all@.len() - max_backups
        }),
        forall|i: int| 0 <= i < r@.len() ==> (#[trigger] r@[i])@ == all@[i].name@,
{
    let mut r: Vec<String> = Vec::new();
    if all.len() <= max_backups {
        return r;
    }
    let count: usize = all.len() - max_backups;
    for i in 0..count
        invariant
            count <= all@.len(),
            r@.len() == i,
            forall|j: int| 0 <= j < i ==> (#[trigger] r@[j])@ == all@[j].name@,
    {
        r.push(all[i].name.clone());
    }
    r
}

/// Everything which is removed is older than everything which stays.
pub proof fn the_newest_backups_stay(all: Seq<BackupOnDisk>, max_backups: nat, i: int, j: int)
    requires
        is_sorted(all),
        max_backups < all.len(),
        0 <= i < all.len() - max_backups,
        all.len() - max_backups <= j < all.len(),
    ensures
        !text_before(all[j].name@, all[i].name@),
{
    assert(all[i].may_precede(&all[j]));
}

/// Whether a text is made of letters and digits below 128.
pub open spec fn is_plain(text: Seq<char>) -> bool {
    forall|i: int| 0 <= i < text.len() ==> is_letter_or_digit(#[trigger] text[i])
}

/// Whether a character is a letter or a digit below 128.
pub open spec fn is_letter_or_digit(c: char) -> bool {
    ||| 'a' <= c && c <= 'z'
    ||| 'A' <= c && c <= 'Z'
    ||| '0' <= c && c <= '9'
}

proof fn lemma_two_digits(n: nat)
    requires
        n < 100,
    ensures
        two_digits(n) == seq![digit_char(n / 10), digit_char(n % 10)],
{
    reveal_strlit("0");
    reveal_with_fuel(decimal, 3);
    if n < 10 {
        assert(two_digits(n) =~= seq![digit_char(n / 10), digit_char(n % 10)]);
    } else {
        assert(two_digits(n) =~= seq![digit_char(n / 10), digit_char(n % 10)]);
    }
}

/// What a backup is called is the name of a backup.
pub proof fn a_compiled_name_is_a_backup_name(stamp: Seq<char>, attempt: nat)
    requires
        is_plain(stamp),
        attempt <= MAX_BACKUPS_PER_SECOND,
    ensures
        is_backup_name(backup_name(stamp, attempt)),
{
    reveal_strlit(".zip");
    reveal_strlit("_");
    lemma_two_digits(attempt);
    let name = backup_name(stamp, attempt);
    let n = name.len();
    assert(name.skip(n - 4) =~= seq!['.', 'z', 'i', 'p']);
    assert forall|i: int| 0 <= i < n - 4 implies is_letter_or_digit(#[trigger] name[i]) || name[i]
        == '_' by {
        if i < stamp.len() {
            assert(name[i] == stamp[i]);
        }
    }
    assert(name[n - 4] == '.' && name[n - 3] == 'z' && name[n - 2] == 'i' && name[n - 1] == 'p');
    assert forall|i: int| 0 <= i < n implies #[trigger] name[i] != '/' && name[i] != '\\' by {}
}

/// Of the backups of one second a later one sorts after an earlier one.
pub proof fn a_later_attempt_sorts_later(stamp: Seq<char>, a: nat, b: nat)
    requires
        1 <= a < b <= MAX_BACKUPS_PER_SECOND,
    ensures
        text_before(backup_name(stamp, a), backup_name(stamp, b)),
{
    reveal_strlit(".zip");
    reveal_strlit("_");
    lemma_two_digits(a);
    lemma_two_digits(b);
    let after_b = "_"@ + two_digits(b) + ".zip"@;
    assert(backup_name(stamp, b) =~= stamp + after_b);
    if a < 2 {
        lemma_common_front(stamp, ".zip"@, after_b);
        lemma_first_char_decides(".zip"@, '.', after_b, '_');
    } else {
        let after_a = "_"@ + two_digits(a) + ".zip"@;
        assert(backup_name(stamp, a) =~= stamp + after_a);
        lemma_common_front(stamp, after_a, after_b);
        let rest_a = two_digits(a) + ".zip"@;
        let rest_b = two_digits(b) + ".zip"@;
        assert(after_a =~= "_"@ + rest_a);
        assert(after_b =~= "_"@ + rest_b);
        lemma_common_front("_"@, rest_a, rest_b);
        if a / 10 < b / 10 {
            lemma_first_char_decides(
                rest_a,
                digit_char(a / 10),
                rest_b,
                digit_char(b / 10),
            );
        } else {
            let tens = seq![digit_char(a / 10)];
            let unit_a = seq![digit_char(a % 10)] + ".zip"@;
            let unit_b = seq![digit_char(b % 10)] + ".zip"@;
            assert(rest_a =~= tens + unit_a);
            assert(rest_b =~= tens + unit_b);
            lemma_common_front(tens, unit_a, unit_b);
            lemma_first_char_decides(
                unit_a,
                digit_char(a % 10),
                unit_b,
                digit_char(b % 10),
            );
        }
    }
}

/// Every backup of an earlier second sorts before every backup of a later one.
pub proof fn an_earlier_second_sorts_earlier(
    earlier: Seq<char>,
    later: Seq<char>,
    a: nat,
    b: nat,
)
    requires
        text_before(earlier, later),
        encode_utf8(earlier).len() == encode_utf8(later).len(),
    ensures
        text_before(backup_name(earlier, a), backup_name(later, b)),
{
    let tail_a = if a < 2 {
        ".zip"@
    } else {
        "_"@ + two_digits(a) + ".zip"@
    };
    let tail_b = if b < 2 {
        ".zip"@
    } else {
        "_"@ + two_digits(b) + ".zip"@
    };
    assert(backup_name(earlier, a) =~= earlier + tail_a);
    assert(backup_name(later, b) =~= later + tail_b);
    lemma_front_decides(earlier, later, tail_a, tail_b);
}

}
