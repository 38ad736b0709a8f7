//! Where backups are kept, what they are called, and which of them stay.

use super::backups_repo::{
    backup_name, backups_folder, backups_of, bare_stamp,
    is_backup_name, not_configured, two_digits, without_trailing_separators, BackupOnDisk,
    MAX_BACKUPS_PER_SECOND, STAMP_LEN,
};
use crate::app::namespace_name;
use crate::persist::layout::is_namespace_name;
use crate::text::{decimal, digit_char};
use vstd::prelude::*;

verus! {

/// A path loses the separators at its end, and nothing else.
pub proof fn only_trailing_separators_go(path: Seq<char>)
    ensures
        without_trailing_separators(path).len() <= path.len(),
        without_trailing_separators(path) == path.take(
            without_trailing_separators(path).len() as int,
        ),
        without_trailing_separators(path).len() > 0 ==> without_trailing_separators(path).last()
            != '/' && without_trailing_separators(path).last() != '\\',
        forall|i: int|
            without_trailing_separators(path).len() <= i < path.len() ==> #[trigger] path[i] == '/'
                || path[i] == '\\',
    decreases path.len(),
{
    if path.len() > 0 && (path.last() == '/' || path.last() == '\\') {
        let shorter = path.drop_last();
        only_trailing_separators_go(shorter);
        let kept = without_trailing_separators(path);
        assert(path.take(kept.len() as int) =~= shorter.take(kept.len() as int));
        assert forall|i: int| kept.len() <= i < path.len() implies #[trigger] path[i] == '/'
            || path[i] == '\\' by {
            if i < shorter.len() {
                assert(shorter[i] == path[i]);
            }
        }
    } else {
        assert(path.take(path.len() as int) =~= path);
    }
}

/// Every namespace which can be has a folder of its own for its backups, right below the one
/// which is configured, and none has one where none is configured.
pub proof fn every_namespace_has_its_backups_folder(
    folder: Seq<char>,
    name_space: Seq<char>,
)
    ensures
        backups_folder(Some(folder), name_space) is Ok <==> is_namespace_name(
            namespace_name(name_space),
        ),
        backups_folder(Some(folder), name_space) matches Ok(path) ==> path
            == without_trailing_separators(folder) + seq!['/'] + namespace_name(name_space),
        backups_folder(None, name_space) == Err::<Seq<char>, Seq<char>>(not_configured()),
{
    reveal_strlit("/");
    assert("/"@ =~= seq!['/']);
}

/// A backup may be called anything which ends with `.zip` and has no path in it.
pub proof fn what_a_backup_may_be_called(name: Seq<char>)
    ensures
        is_backup_name(name) <==> {
            let n = name.len() as int;
            &&& n >= 4
            &&& name[n - 4] == '.' && name[n - 3] == 'z' && name[n - 2] == 'i' && name[n - 1] == 'p'
            &&& forall|i: int|
                0 <= i < n ==> (#[trigger] name[i]) != '/' && name[i] != '\\'
            &&& forall|i: int|
                0 <= i < n - 1 ==> !((#[trigger] name[i]) == '.' && name[i + 1] == '.')
        },
{
    let n = name.len() as int;
    let zip = seq!['.', 'z', 'i', 'p'];
    if n >= 4 {
        let end = name.skip(n - 4);
        assert(end[0] == name[n - 4] && end[1] == name[n - 3] && end[2] == name[n - 2] && end[3]
            == name[n - 1]);
        if name[n - 4] == '.' && name[n - 3] == 'z' && name[n - 2] == 'i' && name[n - 1] == 'p' {
            assert(end =~= zip);
        }
    }
    if !name.contains('/') && !name.contains('\\') {
        assert forall|i: int| 0 <= i < n implies (#[trigger] name[i]) != '/' && name[i]
            != '\\' by {
            assert(name.contains(name[i]));
        }
    }
}

/// The moment of a backup becomes a stamp of fifteen characters: of
/// `2026-08-10T07:14:15` it is `20260810T071415`.
pub proof fn a_moment_becomes_its_stamp(moment: Seq<char>)
    requires
        moment.len() >= 19,
        moment[4] == '-',
        moment[7] == '-',
        moment[13] == ':',
        moment[16] == ':',
        forall|i: int|
            0 <= i < 19 && i != 4 && i != 7 && i != 13 && i != 16 ==> (#[trigger] moment[i]) != '-'
                && moment[i] != ':',
    ensures
        bare_stamp(moment).len() >= STAMP_LEN,
        bare_stamp(moment).take(STAMP_LEN as int) == moment.subrange(0, 4) + moment.subrange(5, 7)
            + moment.subrange(8, 13) + moment.subrange(14, 16) + moment.subrange(17, 19),
{
    let front = moment.take(19);
    let want = moment.subrange(0, 4) + moment.subrange(5, 7) + moment.subrange(8, 13)
        + moment.subrange(14, 16) + moment.subrange(17, 19);
    lemma_stamp_run(moment, 0, 4);
    assert(moment.take(0) =~= Seq::<char>::empty());
    lemma_stamp_skip(moment, 4);
    lemma_stamp_run(moment, 5, 7);
    lemma_stamp_skip(moment, 7);
    lemma_stamp_run(moment, 8, 13);
    lemma_stamp_skip(moment, 13);
    lemma_stamp_run(moment, 14, 16);
    lemma_stamp_skip(moment, 16);
    lemma_stamp_run(moment, 17, 19);
    assert(bare_stamp(front) =~= want);
    lemma_stamp_goes_on(moment, 19);
    assert(bare_stamp(moment).take(STAMP_LEN as int) =~= want);
}

/// Characters which are no separators stay.
proof fn lemma_stamp_run(moment: Seq<char>, from: int, to: int)
    requires
        0 <= from <= to <= moment.len(),
        forall|i: int| from <= i < to ==> (#[trigger] moment[i]) != '-' && moment[i] != ':',
    ensures
        bare_stamp(moment.take(to)) == bare_stamp(moment.take(from)) + moment.subrange(from, to),
    decreases to - from,
{
    if from == to {
        assert(moment.subrange(from, to) =~= Seq::<char>::empty());
        assert(bare_stamp(moment.take(from)) + Seq::<char>::empty() =~= bare_stamp(
            moment.take(from),
        ));
    } else {
        lemma_stamp_run(moment, from, to - 1);
        assert(moment.take(to).drop_last() =~= moment.take(to - 1));
        assert(moment.take(to).last() == moment[to - 1]);
        assert(moment.subrange(from, to) =~= moment.subrange(from, to - 1).push(moment[to - 1]));
        assert(bare_stamp(moment.take(to)) =~= bare_stamp(moment.take(from)) + moment.subrange(
            from,
            to,
        ));
    }
}

/// A separator does not.
proof fn lemma_stamp_skip(moment: Seq<char>, at: int)
    requires
        0 <= at < moment.len(),
        moment[at] == '-' || moment[at] == ':',
    ensures
        bare_stamp(moment.take(at + 1)) == bare_stamp(moment.take(at)),
{
    assert(moment.take(at + 1).drop_last() =~= moment.take(at));
    assert(moment.take(at + 1).last() == moment[at]);
}

/// What follows goes behind.
proof fn lemma_stamp_goes_on(moment: Seq<char>, n: int)
    requires
        0 <= n <= moment.len(),
    ensures
        bare_stamp(moment.take(n)).is_prefix_of(bare_stamp(moment)),
    decreases moment.len() - n,
{
    if n == moment.len() {
        assert(moment.take(n) =~= moment);
    } else {
        lemma_stamp_goes_on(moment, n + 1);
        assert(moment.take(n + 1).drop_last() =~= moment.take(n));
        assert(bare_stamp(moment.take(n)).is_prefix_of(bare_stamp(moment.take(n + 1))));
    }
}

/// What the backups of a second are called: the stamp, and from the second one on which of
/// them it is, in two digits. There can be 99.
pub proof fn what_backups_are_called(stamp: Seq<char>, n: nat)
    ensures
        n < 2 ==> backup_name(stamp, n) == stamp + ".zip"@,
        2 <= n <= 99 ==> backup_name(stamp, n) == stamp + seq![
            '_',
            digit_char(n / 10),
            digit_char(n % 10),
        ] + ".zip"@,
        MAX_BACKUPS_PER_SECOND == 99,
{
    reveal_strlit("_");
    reveal_strlit("0");
    reveal_strlit(".zip");
    if 2 <= n <= 99 {
        let digits = seq![digit_char(n / 10), digit_char(n % 10)];
        if n < 10 {
            assert(digit_char(0) == '0');
            assert(two_digits(n) =~= digits);
        } else {
            assert(decimal(n / 10) =~= seq![digit_char(n / 10)]);
            assert(two_digits(n) =~= digits);
        }
        assert(backup_name(stamp, n) =~= stamp + seq![
            '_',
            digit_char(n / 10),
            digit_char(n % 10),
        ] + ".zip"@);
    }
}

/// Every file of a folder which is called like a backup is listed, and no other.
pub proof fn every_backup_is_listed(files: Seq<BackupOnDisk>)
    ensures
        backups_of(files) == files.filter(|file: BackupOnDisk| is_backup_name(file.name@)),
    decreases files.len(),
{
    reveal(Seq::filter);
    if files.len() > 0 {
        every_backup_is_listed(files.drop_last());
    }
}

}
