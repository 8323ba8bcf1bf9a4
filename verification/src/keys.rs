//! What a device keeps on disk about itself and whom it trusts.
//!
//! Which modes its files get, which key it goes by, when a community's anchor is pinned and when a
//! changed one is refused. Reading and writing the files is the caller's.
use crate::assoc::{same_key, PubKey};
use crate::ctl::key_of;
use crate::text;
use vstd::prelude::*;
use vstd::string::*;

verus! {

/// The mode of a file that only its owner may read or write.
pub const PRIVATE_FILE_MODE: u32 = 0o600;

/// How often another name is tried for a temporary file.
pub const TMP_TRIES: usize = 16;

/// Whether a mode lets the group pass through a directory.
pub open spec fn group_passes(mode: u32) -> bool {
    (mode / 8) % 2 == 1
}

/// The mode of a directory of secrets.
pub open spec fn private_mode(existing: Option<u32>) -> u32 {
    match existing {
        Some(m) => if group_passes(m) {
            0o710
        } else {
            0o700
        },
        None => 0o700,
    }
}

/// The mode that a directory of secrets gets, given the one that it has, if it was there before: only
/// the owner may look into it. That the group may pass through is kept: the control socket is
/// reached that way. A bit that the creation of the directory left there means nothing.
pub fn create_private_dir(existing: Option<u32>) -> (r: u32)
    ensures
        r == private_mode(existing),
{
    match existing {
        Some(m) => if (m / 8) % 2 == 1 {
            0o710
        } else {
            0o700
        },
        None => 0o700,
    }
}

/// A private directory is the owner's: nobody else may list it or change it, whatever its mode was.
pub proof fn law_private_dir_is_the_owners(existing: Option<u32>)
    ensures
        private_mode(existing) / 64 == 7,
        (private_mode(existing) / 8) % 8 <= 1,
        private_mode(existing) % 8 == 0,
{
}

/// Restricting a directory again changes nothing.
pub proof fn law_private_dir_stays(existing: Option<u32>)
    ensures
        private_mode(Some(private_mode(existing))) == private_mode(existing),
{
}

/// The device's own key, and whether it is yet to be written.
pub struct OwnKey {
    pub key: PubKey,
    pub write: bool,
}

/// Where the device's own key is kept.
pub fn own_key_path(state_dir: &str) -> (r: String)
    ensures
        r@ == text::joined(state_dir@, "wg.key"@),
{
    text::join_path(state_dir, "wg.key")
}

/// The device's own key: what the file holds, or a fresh one where there is no file. A file that holds
/// no key is not replaced.
pub fn load_or_generate_keypair(file: Option<&Vec<u8>>, fresh: PubKey) -> (r: Result<
    OwnKey,
    String,
>)
    ensures
        match (file, r) {
            (None, Ok(k)) => k.key@ == fresh@ && k.write,
            (Some(b), Ok(k)) => b@ == k.key@ && !k.write,
            (Some(b), Err(t)) => b@.len() != 32 && t@ == "wg.key is not 32 bytes"@,
            (None, Err(_)) => false,
        },
{
    match file {
        None => Ok(OwnKey { key: fresh, write: true }),
        Some(b) => match key_of(b) {
            Ok(key) => Ok(OwnKey { key, write: false }),
            Err(_) => Err("wg.key is not 32 bytes".to_owned()),
        },
    }
}

/// The name of the file that a community's anchor is pinned in.
pub open spec fn anchor_name(guild_id: u64) -> Seq<char> {
    text::dec(guild_id as nat) + ".pub"@
}

/// Where a community's anchor is pinned.
pub fn anchor_path(state_dir: &str, guild_id: u64) -> (r: String)
    ensures
        r@ == text::joined(text::joined(state_dir@, "anchors"@), anchor_name(guild_id)),
{
    let dir = text::join_path(state_dir, "anchors");
    let mut name = text::decimal(guild_id);
    name.append(".pub");
    text::join_path(dir.as_str(), name.as_str())
}

/// What becomes of an anchor that the coordinator names.
#[derive(Clone, Copy, Debug, PartialEq, Eq, Structural)]
pub enum Pin {
    /// It is the one that is pinned.
    Keep,
    /// It is to be pinned.
    Write,
}

/// Why an anchor is refused.
#[derive(Clone, Copy, Debug, PartialEq, Eq, Structural)]
pub enum PinError {
    /// What is pinned is no anchor.
    NotAnAnchor { guild_id: u64 },
    /// Nothing is pinned.
    Unpinned { guild_id: u64 },
    /// The anchor changed, and nothing shows that it was rotated.
    NoPath { guild_id: u64 },
}

impl PinError {
    /// What is said of the refusal.
    pub open spec fn text(self) -> Seq<char> {
        match self {
            PinError::NotAnAnchor { guild_id } => "pinned anchor file for guild "@ + text::dec(
                guild_id as nat,
            ) + " is not 32 bytes"@,
            PinError::Unpinned { guild_id } => "reading pinned anchor for guild "@ + text::dec(
                guild_id as nat,
            ),
            PinError::NoPath { guild_id } => "guild "@ + text::dec(guild_id as nat)
                + " trust anchor changed with no valid rotation path — refusing (possible MITM)"@,
        }
    }

    /// What is said of the refusal.
    pub fn to_text(&self) -> (r: String)
        ensures
            r@ == self.text(),
    {
        match self {
            PinError::NotAnAnchor { guild_id } => {
                let mut t = "pinned anchor file for guild ".to_owned();
                t.append(text::decimal(*guild_id).as_str());
                t.append(" is not 32 bytes");
                t
            },
            PinError::Unpinned { guild_id } => {
                let mut t = "reading pinned anchor for guild ".to_owned();
                t.append(text::decimal(*guild_id).as_str());
                t
            },
            PinError::NoPath { guild_id } => {
                let mut t = "guild ".to_owned();
                t.append(text::decimal(*guild_id).as_str());
                t.append(
                    " trust anchor changed with no valid rotation path — refusing (possible MITM)",
                );
                t
            },
        }
    }
}

/// What becomes of an anchor: the first one seen is pinned, and another takes its place only where
/// signed rotations lead from the one to the other.
pub open spec fn pinning(
    guild_id: u64,
    pinned: Option<Seq<u8>>,
    anchor: Seq<u8>,
    rotated: bool,
) -> Result<Pin, PinError> {
    match pinned {
        None => Ok(Pin::Write),
        Some(p) => if p.len() != 32 {
            Err(PinError::NotAnAnchor { guild_id })
        } else if p == anchor {
            Ok(Pin::Keep)
        } else if rotated {
            Ok(Pin::Write)
        } else {
            Err(PinError::NoPath { guild_id })
        },
    }
}

/// What a file holds.
pub open spec fn held(file: Option<&Vec<u8>>) -> Option<Seq<u8>> {
    match file {
        Some(b) => Some(b@),
        None => None,
    }
}

/// What becomes of a community's anchor. `file` is what is pinned, if anything is, and `rotated`
/// whether the community's signed rotations lead from it to the new anchor.
pub fn pin_anchor(guild_id: u64, file: Option<&Vec<u8>>, anchor: &PubKey, rotated: bool) -> (r:
    Result<Pin, PinError>)
    ensures
        r == pinning(guild_id, held(file), anchor@, rotated),
{
    match file {
        None => Ok(Pin::Write),
        Some(b) => match key_of(b) {
            Err(_) => Err(PinError::NotAnAnchor { guild_id }),
            Ok(p) => if same_key(&p, anchor) {
                Ok(Pin::Keep)
            } else if rotated {
                Ok(Pin::Write)
            } else {
                Err(PinError::NoPath { guild_id })
            },
        },
    }
}

/// A pinned anchor gives way only to one that rotations lead to.
pub proof fn law_anchor_moves_only_by_rotation(
    guild_id: u64,
    pinned: Seq<u8>,
    anchor: Seq<u8>,
    rotated: bool,
)
    requires
        pinning(guild_id, Some(pinned), anchor, rotated) == Ok::<Pin, PinError>(Pin::Write),
    ensures
        rotated,
        pinned != anchor,
{
}

/// An anchor that was pinned is kept from then on.
pub proof fn law_pinned_is_kept(guild_id: u64, anchor: Seq<u8>, rotated: bool)
    requires
        anchor.len() == 32,
    ensures
        pinning(guild_id, None, anchor, rotated) == Ok::<Pin, PinError>(Pin::Write),
        pinning(guild_id, Some(anchor), anchor, rotated) == Ok::<Pin, PinError>(Pin::Keep),
{
}

/// A community's pinned anchor.
pub fn load_anchor(guild_id: u64, file: Option<&Vec<u8>>) -> (r: Result<PubKey, PinError>)
    ensures
        match (file, r) {
            (None, Err(e)) => e == (PinError::Unpinned { guild_id }),
            (Some(b), Ok(k)) => b@ == k@,
            (Some(b), Err(e)) => b@.len() != 32 && e == (PinError::NotAnAnchor { guild_id }),
            (None, Ok(_)) => false,
        },
{
    match file {
        None => Err(PinError::Unpinned { guild_id }),
        Some(b) => match key_of(b) {
            Ok(k) => Ok(k),
            Err(_) => Err(PinError::NotAnAnchor { guild_id }),
        },
    }
}

/// A file's name without its extension: what stands before the last dot, where that is not the first
/// character.
pub open spec fn stem(name: Seq<char>) -> Seq<char> {
    let k = text::last_match(name, "."@, name.len() as int);
    if k <= 0 {
        name
    } else {
        name.take(k)
    }
}

fn stem_of(name: &str) -> (r: String)
    ensures
        r@ == stem(name@),
{
    let v = text::chars_of(name);
    let dot = text::chars_of(".");
    let mut i: usize = v.len();
    while i > 0 && !text::matches_at(&v, i, &dot)
        invariant
            i <= v.len(),
            v@ == name@,
            dot@ == "."@,
            text::last_match(v@, "."@, v@.len() as int) == text::last_match(
                v@,
                "."@,
                i as int,
            ),
        decreases i,
    {
        i -= 1;
    }
    assert(text::last_match(v@, "."@, -1) == -1);
    if i > 0 {
        let r = text::slice_of(&v, 0, i);
        assert(r@ =~= name@.take(i as int));
        r
    } else {
        assert(text::last_match(v@, "."@, 0) <= 0);
        name.to_owned()
    }
}

/// A file among the pinned anchors: its name, and what it holds where that can be read.
pub struct AnchorFile {
    pub name: String,
    pub bytes: Option<Vec<u8>>,
}

/// The community and anchor that a file pins.
pub open spec fn pinned_in(f: AnchorFile) -> Option<(u64, Seq<u8>)> {
    match (text::uint(stem(f.name@), u64::MAX as nat), f.bytes) {
        (Some(g), Some(b)) => if b@.len() == 32 {
            Some((g as u64, b@))
        } else {
            None
        },
        _ => None,
    }
}

/// The communities and anchors that files pin.
pub open spec fn all_pinned(fs: Seq<AnchorFile>) -> Seq<(u64, Seq<u8>)>
    decreases fs.len(),
{
    if fs.len() == 0 {
        seq![]
    } else {
        let before = all_pinned(fs.drop_last());
        match pinned_in(fs.last()) {
            Some(p) => before.push(p),
            None => before,
        }
    }
}

/// Pairs of a community and its anchor, as models.
pub open spec fn pin_views(s: Seq<(u64, PubKey)>) -> Seq<(u64, Seq<u8>)> {
    s.map_values(|p: (u64, PubKey)| (p.0, p.1@))
}

/// Every pinned anchor with its community, which its file's name tells. A file that is no anchor is
/// passed over.
pub fn load_all_pinned(files: &Vec<AnchorFile>) -> (r: Vec<(u64, PubKey)>)
    ensures
        pin_views(r@) == all_pinned(files@),
{
    let mut out: Vec<(u64, PubKey)> = Vec::new();
    let mut i: usize = 0;
    assert(pin_views(out@) =~= all_pinned(files@.take(0)));
    while i < files.len()
        invariant
            i <= files.len(),
            pin_views(out@) == all_pinned(files@.take(i as int)),
        decreases files.len() - i,
    {
        assert(files@.take(i + 1).drop_last() =~= files@.take(i as int));
        let f = &files[i];
        if let (Some(g), Some(b)) = (
            text::parse_uint(stem_of(f.name.as_str()).as_str(), u64::MAX),
            &f.bytes,
        ) {
            if let Ok(k) = key_of(b) {
                let ghost before = pin_views(out@);
                out.push((g, k));
                assert(pin_views(out@) =~= before.push((g, k@)));
            }
        }
        i += 1;
    }
    assert(files@.take(i as int) =~= files@);
    out
}

/// The device's token, as the file holds it; the space around it is no part of it.
pub fn load_token(file: Option<&str>) -> (r: Option<String>)
    ensures
        match (file, r) {
            (Some(s), Some(t)) => t@ == text::trimmed(s@),
            (None, None) => true,
            _ => false,
        },
{
    match file {
        Some(s) => Some(text::trim(s)),
        None => None,
    }
}

/// A secret to be written to a file of its own, which only the owner may read.
pub struct Secret {
    pub path: String,
    pub text: String,
    pub mode: u32,
}

/// How the device's token is kept.
pub fn save_token(state_dir: &str, token: &str) -> (r: Secret)
    ensures
        r.path@ == text::joined(state_dir@, "token"@),
        r.text@ == token@,
        r.mode == PRIVATE_FILE_MODE,
{
    Secret {
        path: text::join_path(state_dir, "token"),
        text: token.to_owned(),
        mode: PRIVATE_FILE_MODE,
    }
}

/// The device's relay secret, and whether it is yet to be written. It stays the same over restarts, so
/// that what the coordinator made with it stays valid; a fresh one is made only where there is none.
pub fn load_or_create_relay_secret(file: Option<&str>, fresh: String) -> (r: (String, bool))
    ensures
        ({
            let kept = match file {
                Some(s) => text::trimmed(s@),
                None => seq![],
            };
            if kept.len() > 0 {
                r.0@ == kept && !r.1
            } else {
                r.0@ == fresh@ && r.1
            }
        }),
{
    if let Some(s) = file {
        let t = text::trim(s);
        if text::chars_of(t.as_str()).len() > 0 {
            return (t, false);
        }
    }
    (fresh, true)
}

/// The files that go when a device logs out: its token and its key, so that the next enrolment has a
/// key of its own. The pinned anchors stay: whom a device trusts does not change.
pub fn clear_enrollment(state_dir: &str) -> (r: Vec<String>)
    ensures
        text::texts(r@) == seq![
            text::joined(state_dir@, "token"@),
            text::joined(state_dir@, "wg.key"@),
        ],
{
    let mut out: Vec<String> = Vec::new();
    assert(text::texts(out@) =~= seq![]);
    text::push_text(&mut out, text::join_path(state_dir, "token"));
    text::push_text(&mut out, text::join_path(state_dir, "wg.key"));
    assert(text::texts(out@) =~= seq![
        text::joined(state_dir@, "token"@),
        text::joined(state_dir@, "wg.key"@),
    ]);
    out
}

/// How a removal went.
#[derive(Clone, Copy, Debug, PartialEq, Eq, Structural)]
pub enum Removal {
    Removed,
    /// There was nothing.
    Missing,
    Failed,
}

/// Whether what was to go is gone. It is no error that there was nothing.
pub fn purge_state(how: Removal) -> (r: bool)
    ensures
        r == (how != Removal::Failed),
{
    how != Removal::Failed
}

/// The name of a temporary file beside the file that it will replace. A name that begins with a dot is
/// not listed, and a random part keeps it apart from others.
pub fn tmp_name(name: &str, random: &str) -> (r: String)
    ensures
        r@ == "."@ + name@ + "."@ + random@ + ".tmp"@,
{
    let mut t = ".".to_owned();
    t.append(name);
    t.append(".");
    t.append(random);
    t.append(".tmp");
    t
}

/// How the creation of a temporary file went.
#[derive(Clone, Copy, Debug, PartialEq, Eq, Structural)]
pub enum Opened {
    New,
    /// There is a file of that name.
    Taken,
    Failed,
}

/// What is to be done about a temporary file.
#[derive(Clone, Copy, Debug, PartialEq, Eq, Structural)]
pub enum TmpStep {
    /// To write to it.
    Use,
    /// To try another name.
    Again,
    /// To give up.
    GiveUp,
}

/// What is to be done about a temporary file, after so many names were tried before. A file that was
/// there is never written to.
pub fn next_tmp(tried: usize, how: Opened) -> (r: TmpStep)
    ensures
        r == match how {
            Opened::New => TmpStep::Use,
            Opened::Taken => if tried + 1 < TMP_TRIES {
                TmpStep::Again
            } else {
                TmpStep::GiveUp
            },
            Opened::Failed => TmpStep::GiveUp,
        },
{
    match how {
        Opened::New => TmpStep::Use,
        Opened::Taken => if tried < TMP_TRIES - 1 {
            TmpStep::Again
        } else {
            TmpStep::GiveUp
        },
        Opened::Failed => TmpStep::GiveUp,
    }
}

/// A directory of secrets is its owner's alone, but that its group may go on passing through if it
/// might before.
pub proof fn law_mode_of_a_private_directory(m: u32)
    ensures
        private_mode(None) == 0o700,
        (m / 8) % 2 == 1 ==> private_mode(Some(m)) == 0o710,
        (m / 8) % 2 == 0 ==> private_mode(Some(m)) == 0o700,
{
}

/// What becomes of an anchor: the first is pinned, the same is kept, another is pinned only where the
/// community rotated to it, and what is pinned must be an anchor.
pub proof fn law_what_becomes_of_an_anchor(guild_id: u64, pinned: Seq<u8>, anchor: Seq<u8>)
    ensures
        pinning(guild_id, None, anchor, false) == Ok::<Pin, PinError>(Pin::Write),
        pinning(guild_id, None, anchor, true) == Ok::<Pin, PinError>(Pin::Write),
        pinned.len() == 32 && pinned == anchor ==> pinning(guild_id, Some(pinned), anchor, true)
            == Ok::<Pin, PinError>(Pin::Keep) && pinning(guild_id, Some(pinned), anchor, false)
            == Ok::<Pin, PinError>(Pin::Keep),
        pinned.len() == 32 && pinned != anchor ==> pinning(guild_id, Some(pinned), anchor, true)
            == Ok::<Pin, PinError>(Pin::Write) && pinning(guild_id, Some(pinned), anchor, false)
            == Err::<Pin, PinError>(PinError::NoPath { guild_id }),
        pinned.len() != 32 ==> pinning(guild_id, Some(pinned), anchor, true) == Err::<
            Pin,
            PinError,
        >(PinError::NotAnAnchor { guild_id }) && pinning(guild_id, Some(pinned), anchor, false)
            == Err::<Pin, PinError>(PinError::NotAnAnchor { guild_id }),
{
}

/// What is said of an anchor that is refused.
pub proof fn law_what_is_said_of_an_anchor(guild_id: u64)
    ensures
        (PinError::NotAnAnchor { guild_id }).text() == "pinned anchor file for guild "@ + text::dec(
            guild_id as nat,
        ) + " is not 32 bytes"@,
        (PinError::Unpinned { guild_id }).text() == "reading pinned anchor for guild "@ + text::dec(
            guild_id as nat,
        ),
        (PinError::NoPath { guild_id }).text() == "guild "@ + text::dec(guild_id as nat)
            + " trust anchor changed with no valid rotation path — refusing (possible MITM)"@,
{
}

/// An anchor is read back from the file that it was pinned in, under the community that the file is
/// named for.
pub proof fn law_pinned_anchor_is_read_back(f: AnchorFile, guild_id: u64)
    requires
        f.name@ == text::dec(guild_id as nat) + ".pub"@,
    ensures
        f.bytes is Some && f.bytes->0@.len() == 32 ==> pinned_in(f) == Some(
            (guild_id, f.bytes->0@),
        ),
        f.bytes is None || f.bytes->0@.len() != 32 ==> pinned_in(f) is None,
        anchor_name(guild_id) == f.name@,
{
    let d = text::dec(guild_id as nat);
    let s = f.name@;
    reveal_strlit(".pub");
    reveal_strlit(".");
    text::lemma_dec(guild_id as nat);
    text::law_decimal_is_read_back(guild_id as nat, u64::MAX as nat);
    let n = d.len() as int;
    assert(s[n] == '.' && s[n + 1] == 'p' && s[n + 2] == 'u' && s[n + 3] == 'b');
    assert(s.subrange(n, n + 1) =~= "."@);
    assert(s.subrange(n + 1, n + 2)[0] == 'p');
    assert(s.subrange(n + 2, n + 3)[0] == 'u');
    assert(s.subrange(n + 3, n + 4)[0] == 'b');
    assert("."@[0] == '.');
    assert(text::last_match(s, "."@, n) == n);
    assert(text::last_match(s, "."@, n + 1) == n);
    assert(text::last_match(s, "."@, n + 2) == n);
    assert(text::last_match(s, "."@, n + 3) == n);
    assert(text::last_match(s, "."@, n + 4) == n);
    assert(s.take(n) =~= d);
}

/// Every file is read for itself, in order.
pub proof fn law_every_file_is_read(a: Seq<AnchorFile>, b: Seq<AnchorFile>, f: AnchorFile)
    ensures
        all_pinned(seq![]) == Seq::<(u64, Seq<u8>)>::empty(),
        all_pinned(seq![f]) == match pinned_in(f) {
            Some(p) => seq![p],
            None => seq![],
        },
        all_pinned(a + b) == all_pinned(a) + all_pinned(b),
    decreases b.len(),
{
    assert(seq![f].drop_last() =~= seq![]);
    assert(all_pinned(seq![]) =~= Seq::<(u64, Seq<u8>)>::empty());
    assert(all_pinned(seq![f]) =~= match pinned_in(f) {
        Some(p) => seq![p],
        None => seq![],
    });
    if b.len() == 0 {
        assert(a + b =~= a);
        assert(all_pinned(a) + all_pinned(b) =~= all_pinned(a));
    } else {
        law_every_file_is_read(a, b.drop_last(), f);
        assert((a + b).drop_last() =~= a + b.drop_last());
        assert(all_pinned(a + b) =~= all_pinned(a) + all_pinned(b));
    }
}

} // verus!
