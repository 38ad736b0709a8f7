//! What an operator says about the server.

use crate::text::{append_decimal, decimal, mentions};
use vstd::prelude::*;

verus! {

pub const SETTINGS_FILE: &'static str = "~/.mynosqlservergrpc";

/// This holds a secret, and a derived `Debug` is a `{:?}` away from putting it in
/// a log - so there is none, only `debug_text`.
pub struct SettingsModel {
    pub persistence_dest: String,
    pub location: String,
    pub compress_data: bool,
    pub skip_broken_partitions: bool,
    /// Where backups are written. **Not** inside `persistence_dest`: every folder
    /// there is loaded as a namespace at start up. Absent means backups are not
    /// configured and every call about them says so - writing gigabytes into a
    /// path nobody named is worse than refusing.
    pub backups_dest: Option<String>,
    /// How often a backup is taken. Absent means only by hand: how often to back
    /// up, and how many to keep, is the operator's policy and not something to
    /// guess at.
    pub backup_interval_secs: Option<u64>,
    /// How many backups to keep. Absent means all of them.
    pub max_backups: Option<usize>,
    /// The key the HTTP surface asks for. Absent means it asks for nothing and
    /// the surface is open - turning protection on is the operator's act, never a
    /// silent upgrade.
    ///
    /// gRPC deliberately has no key: it is the write transport, it is not meant
    /// to be exposed, and a key on it would be a second thing to rotate for no
    /// second guarantee.
    pub api_key: Option<String>,
}

/// What std writes for a text in a debug dump.
pub uninterp spec fn quoted(text: Seq<char>) -> Seq<char>;

/// `<str as Debug>::fmt`: the text in quotes, with what can not stand there
/// escaped.
#[verifier::external_body]
fn quote(text: &str) -> (r: String)
    ensures
        r@ == quoted(text@),
{
    format!("{text:?}")
}

/// A flag in a debug dump.
pub open spec fn flag_text(flag: bool) -> Seq<char> {
    if flag {
        "true"@
    } else {
        "false"@
    }
}

/// Something which may be absent in a debug dump.
pub open spec fn optional_text(text: Option<Seq<char>>) -> Seq<char> {
    match text {
        Some(text) => "Some("@ + text + ")"@,
        None => "None"@,
    }
}

/// A path which may be absent in a debug dump.
pub open spec fn path_text(path: Option<String>) -> Seq<char> {
    optional_text(
        match path {
            Some(path) => Some(quoted(path@)),
            None => None,
        },
    )
}

/// A number which may be absent in a debug dump.
pub open spec fn number_text(number: Option<nat>) -> Seq<char> {
    optional_text(
        match number {
            Some(number) => Some(decimal(number)),
            None => None,
        },
    )
}

/// Everything except the key, and the key as whether it is set.
pub open spec fn settings_text(settings: SettingsModel) -> Seq<char> {
    "SettingsModel { persistence_dest: "@ + quoted(settings.persistence_dest@) + ", location: "@
        + quoted(settings.location@) + ", compress_data: "@ + flag_text(settings.compress_data)
        + ", skip_broken_partitions: "@ + flag_text(settings.skip_broken_partitions)
        + ", backups_dest: "@ + path_text(settings.backups_dest) + ", backup_interval_secs: "@
        + number_text(
        match settings.backup_interval_secs {
            Some(secs) => Some(secs as nat),
            None => None,
        },
    ) + ", max_backups: "@ + number_text(
        match settings.max_backups {
            Some(amount) => Some(amount as nat),
            None => None,
        },
    ) + ", api_key: "@ + (if settings.api_key is Some {
        "Some(\"<set>\")"@
    } else {
        "None"@
    }) + " }"@
}

/// A dump does not tell the key: with another key it is the same dump.
pub proof fn a_dump_does_not_tell_the_key(settings: SettingsModel, other_key: String)
    requires
        settings.api_key is Some,
    ensures
        settings_text(settings) == settings_text(
            (SettingsModel { api_key: Some(other_key), ..settings }),
        ),
{
}

fn append_flag(dest: &mut String, flag: bool)
    ensures
        final(dest)@ == old(dest)@ + flag_text(flag),
{
    if flag {
        dest.append("true");
    } else {
        dest.append("false");
    }
}

fn append_number(dest: &mut String, number: Option<u128>)
    ensures
        final(dest)@ == old(dest)@ + number_text(
            match number {
                Some(number) => Some(number as nat),
                None => None,
            },
        ),
{
    match number {
        Some(number) => {
            dest.append("Some(");
            append_decimal(dest, number);
            dest.append(")");
            assert(dest@ =~= old(dest)@ + number_text(Some(number as nat)));
        },
        None => dest.append("None"),
    }
}

impl SettingsModel {
    /// Everything except the key, and the key as whether it is set. A settings
    /// dump is the most likely place for a secret to escape.
    pub fn debug_text(&self) -> (r: String)
        ensures
            r@ == settings_text(*self),
    {
        let mut r = "SettingsModel { persistence_dest: ".to_owned();
        r.append(quote(self.persistence_dest.as_str()).as_str());
        r.append(", location: ");
        r.append(quote(self.location.as_str()).as_str());
        r.append(", compress_data: ");
        append_flag(&mut r, self.compress_data);
        r.append(", skip_broken_partitions: ");
        append_flag(&mut r, self.skip_broken_partitions);
        r.append(", backups_dest: ");
        let ghost before = r@;
        match &self.backups_dest {
            Some(path) => {
                r.append("Some(");
                r.append(quote(path.as_str()).as_str());
                r.append(")");
            },
            None => r.append("None"),
        }
        assert(r@ =~= before + path_text(self.backups_dest));
        r.append(", backup_interval_secs: ");
        append_number(
            &mut r,
            match self.backup_interval_secs {
                Some(secs) => Some(secs as u128),
                None => None,
            },
        );
        r.append(", max_backups: ");
        append_number(
            &mut r,
            match self.max_backups {
                Some(amount) => Some(amount as u128),
                None => None,
            },
        );
        r.append(", api_key: ");
        match &self.api_key {
            Some(_) => r.append("Some(\"<set>\")"),
            None => r.append("None"),
        }
        r.append(" }");
        assert(r@ =~= settings_text(*self));
        r
    }
}

/// A dump says every setting but the key: where data and backups go, how they are kept, and
/// whether there is a key.
pub proof fn a_dump_says_every_other_setting(settings: SettingsModel)
    ensures
        ({
            let dump = settings_text(settings);
            &&& mentions(dump, "persistence_dest: "@ + quoted(settings.persistence_dest@))
            &&& mentions(dump, "location: "@ + quoted(settings.location@))
            &&& mentions(
                dump,
                if settings.compress_data {
                    "compress_data: true"@
                } else {
                    "compress_data: false"@
                },
            )
            &&& mentions(
                dump,
                if settings.skip_broken_partitions {
                    "skip_broken_partitions: true"@
                } else {
                    "skip_broken_partitions: false"@
                },
            )
            &&& settings.backups_dest matches Some(dest) ==> mentions(
                dump,
                "backups_dest: Some("@ + quoted(dest@),
            )
            &&& settings.backup_interval_secs matches Some(secs) ==> mentions(
                dump,
                "backup_interval_secs: Some("@ + decimal(secs as nat),
            )
            &&& settings.max_backups matches Some(amount) ==> mentions(
                dump,
                "max_backups: Some("@ + decimal(amount as nat),
            )
            &&& settings.api_key is Some ==> mentions(dump, "api_key: Some"@)
            &&& settings.api_key is None ==> mentions(dump, "api_key: None"@)
        }),
{
    let dump = settings_text(settings);
    let persist = quoted(settings.persistence_dest@);
    let place = quoted(settings.location@);
    let compress = flag_text(settings.compress_data);
    let skip = flag_text(settings.skip_broken_partitions);
    let dest = path_text(settings.backups_dest);
    let interval = number_text(
        match settings.backup_interval_secs {
            Some(secs) => Some(secs as nat),
            None => None,
        },
    );
    let amount = number_text(
        match settings.max_backups {
            Some(amount) => Some(amount as nat),
            None => None,
        },
    );
    let key = if settings.api_key is Some {
        "Some(\"<set>\")"@
    } else {
        "None"@
    };
    let p0 = "SettingsModel { persistence_dest: "@;
    let p1 = p0 + persist + ", location: "@;
    let p2 = p1 + place + ", compress_data: "@;
    let p3 = p2 + compress + ", skip_broken_partitions: "@;
    let p4 = p3 + skip + ", backups_dest: "@;
    let p5 = p4 + dest + ", backup_interval_secs: "@;
    let p6 = p5 + interval + ", max_backups: "@;
    let p7 = p6 + amount + ", api_key: "@;
    let s7 = ", api_key: "@ + key + " }"@;
    let s6 = ", max_backups: "@ + amount + s7;
    let s5 = ", backup_interval_secs: "@ + interval + s6;
    let s4 = ", backups_dest: "@ + dest + s5;
    let s3 = ", skip_broken_partitions: "@ + skip + s4;
    let s2 = ", compress_data: "@ + compress + s3;
    let s1 = ", location: "@ + place + s2;
    lemma_shift(p6, amount, ", api_key: "@, key, " }"@);
    lemma_shift(p5, interval, ", max_backups: "@, amount, s7);
    lemma_shift(p4, dest, ", backup_interval_secs: "@, interval, s6);
    lemma_shift(p3, skip, ", backups_dest: "@, dest, s5);
    lemma_shift(p2, compress, ", skip_broken_partitions: "@, skip, s4);
    lemma_shift(p1, place, ", compress_data: "@, compress, s3);
    lemma_shift(p0, persist, ", location: "@, place, s2);
    assert(dump == p0 + persist + s1);
    lemma_field_names();
    assert(p0 =~= Seq::empty() + p0);
    lemma_label_said(Seq::empty(), "SettingsModel { persistence_dest: "@, persist, s1, "persistence_dest: "@);
    lemma_label_said(p0 + persist, ", location: "@, place, s2, "location: "@);
    lemma_label_said(p1 + place, ", compress_data: "@, compress, s3, "compress_data: "@);
    lemma_label_said(p2 + compress, ", skip_broken_partitions: "@, skip, s4, "skip_broken_partitions: "@);
    lemma_label_said(p6 + amount, ", api_key: "@, key, " }"@, "api_key: "@);
    if let Some(path) = settings.backups_dest {
        let said = "Some("@ + quoted(path@);
        assert(dest == said + ")"@);
        lemma_inside(p4, said, ")"@, s5);
        lemma_label_said(p3 + skip, ", backups_dest: "@, said, ")"@ + s5, "backups_dest: "@);
        lemma_front("backups_dest: "@, "Some("@, quoted(path@));
    }
    if let Some(secs) = settings.backup_interval_secs {
        let said = "Some("@ + decimal(secs as nat);
        assert(interval == said + ")"@);
        lemma_inside(p5, said, ")"@, s6);
        lemma_label_said(p4 + dest, ", backup_interval_secs: "@, said, ")"@ + s6, "backup_interval_secs: "@);
        lemma_front("backup_interval_secs: "@, "Some("@, decimal(secs as nat));
    }
    if let Some(n) = settings.max_backups {
        let said = "Some("@ + decimal(n as nat);
        assert(amount == said + ")"@);
        lemma_inside(p6, said, ")"@, s7);
        lemma_label_said(p5 + interval, ", max_backups: "@, said, ")"@ + s7, "max_backups: "@);
        lemma_front("max_backups: "@, "Some("@, decimal(n as nat));
    }
    if settings.api_key is Some {
        lemma_key_is_set();
        lemma_inside(p7, "Some"@, "(\"<set>\")"@, " }"@);
        lemma_label_said(p6 + amount, ", api_key: "@, "Some"@, "(\"<set>\")"@ + " }"@, "api_key: "@);
    }
}

/// A key which is set is said to be there.
proof fn lemma_key_is_set()
    ensures
        "Some"@ + "(\"<set>\")"@ == "Some(\"<set>\")"@,
        "api_key: "@ + "Some"@ == "api_key: Some"@,
{
    reveal_strlit("Some(\"<set>\")");
    reveal_strlit("(\"<set>\")");
    reveal_strlit("Some");
    reveal_strlit("api_key: Some");
    reveal_strlit("api_key: ");
    assert("Some"@ + "(\"<set>\")"@ =~= "Some(\"<set>\")"@);
    assert("api_key: "@ + "Some"@ =~= "api_key: Some"@);
}

proof fn lemma_shift(a: Seq<char>, b: Seq<char>, c: Seq<char>, d: Seq<char>, e: Seq<char>)
    ensures
        (a + b + c) + d + e == a + b + (c + d + e),
{
    assert((a + b + c) + d + e =~= a + b + (c + d + e));
}

proof fn lemma_inside(a: Seq<char>, b: Seq<char>, c: Seq<char>, d: Seq<char>)
    ensures
        a + (b + c) + d == a + b + (c + d),
{
    assert(a + (b + c) + d =~= a + b + (c + d));
}

proof fn lemma_front(a: Seq<char>, b: Seq<char>, c: Seq<char>)
    ensures
        a + (b + c) == (a + b) + c,
{
    assert(a + (b + c) =~= (a + b) + c);
}

/// Each name stands at the end of what comes in front of its value.
proof fn lemma_field_names()
    ensures
        is_suffix("persistence_dest: "@, "SettingsModel { persistence_dest: "@),
        is_suffix("location: "@, ", location: "@),
        is_suffix("compress_data: "@, ", compress_data: "@),
        is_suffix("skip_broken_partitions: "@, ", skip_broken_partitions: "@),
        is_suffix("backups_dest: "@, ", backups_dest: "@),
        is_suffix("backup_interval_secs: "@, ", backup_interval_secs: "@),
        is_suffix("max_backups: "@, ", max_backups: "@),
        is_suffix("api_key: "@, ", api_key: "@),
        "compress_data: "@ + "true"@ == "compress_data: true"@,
        "compress_data: "@ + "false"@ == "compress_data: false"@,
        "skip_broken_partitions: "@ + "true"@ == "skip_broken_partitions: true"@,
        "skip_broken_partitions: "@ + "false"@ == "skip_broken_partitions: false"@,
        "backups_dest: "@ + "Some("@ == "backups_dest: Some("@,
        "backup_interval_secs: "@ + "Some("@ == "backup_interval_secs: Some("@,
        "max_backups: "@ + "Some("@ == "max_backups: Some("@,
        "api_key: "@ + "None"@ == "api_key: None"@,
{
    reveal_strlit("persistence_dest: ");
    reveal_strlit("SettingsModel { persistence_dest: ");
    reveal_strlit("location: ");
    reveal_strlit(", location: ");
    reveal_strlit("compress_data: ");
    reveal_strlit(", compress_data: ");
    reveal_strlit("skip_broken_partitions: ");
    reveal_strlit(", skip_broken_partitions: ");
    reveal_strlit("backups_dest: ");
    reveal_strlit(", backups_dest: ");
    reveal_strlit("backup_interval_secs: ");
    reveal_strlit(", backup_interval_secs: ");
    reveal_strlit("max_backups: ");
    reveal_strlit(", max_backups: ");
    reveal_strlit("api_key: ");
    reveal_strlit(", api_key: ");
    reveal_strlit("true");
    reveal_strlit("false");
    reveal_strlit("None");
    reveal_strlit("Some(");
    reveal_strlit("compress_data: true");
    reveal_strlit("compress_data: false");
    reveal_strlit("skip_broken_partitions: true");
    reveal_strlit("skip_broken_partitions: false");
    reveal_strlit("backups_dest: Some(");
    reveal_strlit("backup_interval_secs: Some(");
    reveal_strlit("max_backups: Some(");
    reveal_strlit("api_key: None");
    assert("compress_data: "@ + "true"@ =~= "compress_data: true"@);
    assert("compress_data: "@ + "false"@ =~= "compress_data: false"@);
    assert("skip_broken_partitions: "@ + "true"@ =~= "skip_broken_partitions: true"@);
    assert("skip_broken_partitions: "@ + "false"@ =~= "skip_broken_partitions: false"@);
    assert("backups_dest: "@ + "Some("@ =~= "backups_dest: Some("@);
    assert("backup_interval_secs: "@ + "Some("@ =~= "backup_interval_secs: Some("@);
    assert("max_backups: "@ + "Some("@ =~= "max_backups: Some("@);
    assert("api_key: "@ + "None"@ =~= "api_key: None"@);
}

/// Whether a text ends with another one.
spec fn is_suffix(end: Seq<char>, text: Seq<char>) -> bool {
    end.len() <= text.len() && text.skip(text.len() - end.len()) =~= end
}

/// What stands behind a name is said with it.
proof fn lemma_label_said(
    head: Seq<char>,
    tail: Seq<char>,
    value: Seq<char>,
    back: Seq<char>,
    label: Seq<char>,
)
    requires
        is_suffix(label, tail),
    ensures
        mentions(head + tail + value + back, label + value),
{
    let before = head + tail.take(tail.len() - label.len());
    assert(tail =~= tail.take(tail.len() - label.len()) + label);
    assert(head + tail + value + back =~= before + (label + value) + back);
}

}
