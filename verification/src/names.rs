//! File names: which files a store writes, and which of those it finds are its own.

use crate::error::{PersistenceError, PersistenceResult};
use crate::text::{chars_of, parse_range, push_decimal, starts_with};
use std::collections::HashSet;
use vstd::prelude::*;
use vstd::string::StringExecFns;

verus! {

/// Prefix for epoch-suffixed log files (`segstore.wal.<epoch>`).
pub const WAL_PREFIX: &'static str = "segstore.wal.";

/// The single unsuffixed log of the 0.1 on-disk format; its presence flags a store
/// that later formats cannot read.
pub const LEGACY_WAL_PATH: &'static str = "segstore.wal";

/// The monolithic checkpoint of the 0.2 on-disk format; its presence with no
/// manifest flags a store that the manifest format cannot read.
pub const LEGACY_CKPT_PATH: &'static str = "segstore.ckpt";

/// The checkpoint commit point: a small manifest naming the current segment files
/// and tombstones.
pub const MANIFEST_PATH: &'static str = "segstore.manifest";

/// Prefix for per-segment files (`segstore.seg.<id>`); each holds one immutable
/// segment, written once and never rewritten.
pub const SEG_PREFIX: &'static str = "segstore.seg.";

/// Reserved prefix for consumer-written per-segment index sidecar files
/// (`segstore.idx.<id>.<kind>`).
///
/// A consumer persists a built per-segment index here keyed by a stable segment id;
/// any file in this namespace whose segment id is not in the current manifest is
/// garbage. New names are validated by [`try_index_name`], while garbage collection
/// accepts any non-empty kind so that older sidecars are not stranded.
pub const IDX_PREFIX: &'static str = "segstore.idx.";

/// The name of the log of an epoch.
pub open spec fn wal_name(epoch: u64) -> Seq<char> {
    WAL_PREFIX@ + crate::text::decimal(epoch as nat)
}

/// The name of the file of a segment.
pub open spec fn seg_name(id: u64) -> Seq<char> {
    SEG_PREFIX@ + crate::text::decimal(id as nat)
}

/// The name of the sidecar of a kind for a segment.
pub open spec fn idx_name(id: u64, kind: Seq<char>) -> Seq<char> {
    IDX_PREFIX@ + crate::text::decimal(id as nat) + "."@ + kind
}

/// The rest of a text behind a prefix, if it starts with that.
pub open spec fn behind(s: Seq<char>, prefix: Seq<char>) -> Option<Seq<char>> {
    if prefix.len() <= s.len() && s.take(prefix.len() as int) == prefix {
        Some(s.skip(prefix.len() as int))
    } else {
        None
    }
}

/// The number behind a prefix, if there is one.
pub open spec fn number_behind(s: Seq<char>, prefix: Seq<char>) -> Option<u64> {
    match behind(s, prefix) {
        Some(rest) => crate::text::parsed(rest),
        None => None,
    }
}

/// The segment that a sidecar name `segstore.idx.<id>.<kind>` belongs to, for any
/// non-empty kind.
pub open spec fn sidecar_segment(name: Seq<char>) -> Option<u64> {
    match behind(name, IDX_PREFIX@) {
        Some(rest) => match rest.index_of_first('.') {
            Some(dot) => if dot + 1 < rest.len() {
                crate::text::parsed(rest.take(dot))
            } else {
                None
            },
            None => None,
        },
        None => None,
    }
}

/// A character that may stand in a sidecar kind: an ASCII letter or digit, `_` or `-`.
pub open spec fn is_kind_char(c: char) -> bool {
    'a' <= c <= 'z' || 'A' <= c <= 'Z' || '0' <= c <= '9' || c == '_' || c == '-'
}

/// Nothing but characters that may stand in a sidecar kind.
pub open spec fn all_kind_chars(kind: Seq<char>) -> bool {
    forall|i: int| 0 <= i < kind.len() ==> is_kind_char(#[trigger] kind[i])
}

/// A sidecar kind that new names may carry: non-empty, of kind characters only.
pub open spec fn valid_kind(kind: Seq<char>) -> bool {
    kind.len() > 0 && all_kind_chars(kind)
}

/// How `Debug` writes a text: between double quotes, with escapes.
pub uninterp spec fn debug_text(s: Seq<char>) -> Seq<char>;

/// `format!("{:?}")` on a `str`.
///
/// What it writes depends on the text alone; the escapes it uses are left unsaid.
#[verifier::external_body]
fn debug_format(s: &str) -> (quoted: String)
    ensures
        quoted@ == debug_text(s@),
{
    format!("{s:?}")
}

/// What is said of a sidecar kind that new names may not carry.
pub open spec fn kind_complaint(kind: Seq<char>) -> Seq<char> {
    if kind.len() == 0 {
        "index sidecar kind must be non-empty"@
    } else {
        "index sidecar kind must contain only ASCII letters, digits, '_' or '-': "@ + debug_text(
            kind,
        )
    }
}

/// A text followed by a number.
fn numbered(prefix: &str, n: u64) -> (name: String)
    ensures
        name@ == prefix@ + crate::text::decimal(n as nat),
{
    let mut name = String::from_str(prefix);
    push_decimal(&mut name, n);
    name
}

/// The log file path for a given epoch.
pub fn wal_path(epoch: u64) -> (path: String)
    ensures
        path@ == wal_name(epoch),
{
    numbered(WAL_PREFIX, epoch)
}

/// The file path for the segment with the given id.
pub fn seg_path(id: u64) -> (path: String)
    ensures
        path@ == seg_name(id),
{
    numbered(SEG_PREFIX, id)
}

/// The number behind a prefix, if there is one.
fn number_after(chars: &Vec<char>, prefix: &str) -> (n: Option<u64>)
    ensures
        n == number_behind(chars@, prefix@),
{
    match starts_with(chars, prefix) {
        Some(k) => {
            assert(chars@.subrange(k as int, chars@.len() as int) =~= chars@.skip(k as int));
            parse_range(chars, k, chars.len())
        },
        None => None,
    }
}

/// The segment id named by an index sidecar file `segstore.idx.<id>.<kind>`, or
/// `None` if `name` is not in the index namespace.
pub fn idx_seg_id(name: &str) -> (id: Option<u64>)
    ensures
        id == sidecar_segment(name@),
{
    let chars = chars_of(name);
    let start: usize = match starts_with(&chars, IDX_PREFIX) {
        Some(k) => k,
        None => {
            return None;
        },
    };
    let ghost rest = chars@.skip(start as int);
    proof {
        rest.index_of_first_ensures('.');
    }
    let mut dot: usize = start;
    while dot < chars.len() && chars[dot] != '.'
        invariant
            start <= dot <= chars@.len(),
            rest == chars@.skip(start as int),
            forall|k: int| 0 <= k < dot - start ==> #[trigger] rest[k] != '.',
        decreases chars@.len() - dot,
    {
        assert(rest[dot - start] != '.');
        dot += 1;
    }
    if dot == chars.len() {
        assert(!rest.contains('.'));
        return None;
    }
    assert(rest[dot - start] == '.');
    assert(rest.contains('.'));
    if dot + 1 == chars.len() {
        return None;
    }
    assert(chars@.subrange(start as int, dot as int) =~= rest.take(dot - start));
    parse_range(&chars, start, dot)
}

/// Whether new sidecar names may carry `kind`.
pub fn validate_index_kind(kind: &str) -> (result: PersistenceResult<()>)
    ensures
        valid_kind(kind@) <==> result is Ok,
        !valid_kind(kind@) ==> crate::error::config_error(result, kind_complaint(kind@)),
{
    let chars = chars_of(kind);
    if chars.len() == 0 {
        return Err(
            PersistenceError::InvalidConfig(
                String::from_str("index sidecar kind must be non-empty"),
            ),
        );
    }
    let mut i: usize = 0;
    while i < chars.len()
        invariant
            i <= chars@.len(),
            chars@.len() > 0,
            chars@ == kind@,
            forall|k: int| 0 <= k < i ==> is_kind_char(#[trigger] kind@[k]),
        decreases chars@.len() - i,
    {
        let c = chars[i];
        let allowed = ('a' <= c && c <= 'z') || ('A' <= c && c <= 'Z') || ('0' <= c && c <= '9')
            || c == '_' || c == '-';
        if !allowed {
            assert(!is_kind_char(kind@[i as int]));
            let quoted = debug_format(kind);
            let message = String::from_str(
                "index sidecar kind must contain only ASCII letters, digits, '_' or '-': ",
            ).concat(quoted.as_str());
            return Err(PersistenceError::InvalidConfig(message));
        }
        i += 1;
    }
    Ok(())
}

/// The reserved sidecar file name for a consumer's per-segment built index.
///
/// `kind` must be non-empty ASCII alphanumeric plus `_` or `-`. It is a short
/// namespace tag, not a compatibility proof; put full algorithm/config/input
/// fingerprints in the sidecar bytes, include the expected segment id when accepting
/// a copied sidecar would be unsafe, and rebuild from the raw segment when they
/// mismatch.
pub fn try_index_name(id: u64, kind: &str) -> (result: PersistenceResult<String>)
    ensures
        match result {
            Ok(name) => valid_kind(kind@) && name@ == idx_name(id, kind@),
            Err(_) => !valid_kind(kind@) && crate::error::config_error(
                result,
                kind_complaint(kind@),
            ),
        },
{
    index_sidecar_name(id, kind)
}

/// The sidecar name of a segment, if new names may carry `kind`.
fn index_sidecar_name(id: u64, kind: &str) -> (result: PersistenceResult<String>)
    ensures
        match result {
            Ok(name) => valid_kind(kind@) && name@ == idx_name(id, kind@),
            Err(_) => !valid_kind(kind@) && crate::error::config_error(
                result,
                kind_complaint(kind@),
            ),
        },
{
    match validate_index_kind(kind) {
        Ok(()) => {
            let name = numbered(IDX_PREFIX, id).concat(".").concat(kind);
            Ok(name)
        },
        Err(e) => Err(e),
    }
}

/// Infallible form of [`try_index_name`] for a kind known to be valid.
pub fn index_name(id: u64, kind: &str) -> (name: String)
    requires
        valid_kind(kind@),
    ensures
        name@ == idx_name(id, kind@),
{
    numbered(IDX_PREFIX, id).concat(".").concat(kind)
}

/// What a file found in the directory is to a store.
#[derive(Debug, Clone, Copy, PartialEq, Eq, Structural)]
pub enum FileRole {
    /// The log of an epoch.
    Wal(u64),
    /// The file of a segment.
    Segment(u64),
    /// A consumer's sidecar for a segment.
    Sidecar(u64),
    /// None of the store's business.
    Foreign,
}

/// What a file is to a store, by its name.
pub open spec fn role(name: Seq<char>) -> FileRole {
    match number_behind(name, WAL_PREFIX@) {
        Some(epoch) => FileRole::Wal(epoch),
        None => match number_behind(name, SEG_PREFIX@) {
            Some(id) => FileRole::Segment(id),
            None => match sidecar_segment(name) {
                Some(id) => FileRole::Sidecar(id),
                None => FileRole::Foreign,
            },
        },
    }
}

/// A file that a crash left behind: the log of another epoch, or the file or sidecar
/// of a segment that the manifest does not name.
pub open spec fn is_leftover(name: Seq<char>, epoch: u64, named: Set<u64>) -> bool {
    match role(name) {
        FileRole::Wal(e) => e != epoch,
        FileRole::Segment(id) => !named.contains(id),
        FileRole::Sidecar(id) => !named.contains(id),
        FileRole::Foreign => false,
    }
}

/// The file or sidecar of a segment that the manifest does not name.
pub open spec fn is_orphan(name: Seq<char>, named: Set<u64>) -> bool {
    match role(name) {
        FileRole::Segment(id) => !named.contains(id),
        FileRole::Sidecar(id) => !named.contains(id),
        _ => false,
    }
}

/// What a file is to a store, by its name.
pub fn classify(name: &str) -> (r: FileRole)
    ensures
        r == role(name@),
{
    let chars = chars_of(name);
    match number_after(&chars, WAL_PREFIX) {
        Some(epoch) => FileRole::Wal(epoch),
        None => match number_after(&chars, SEG_PREFIX) {
            Some(id) => FileRole::Segment(id),
            None => match idx_seg_id(name) {
                Some(id) => FileRole::Sidecar(id),
                None => FileRole::Foreign,
            },
        },
    }
}

/// The files that a crash left behind, among all those found: stale log generations
/// and the files and sidecars of segments outside the manifest.
pub fn leftovers(names: &[String], epoch: u64, named: &HashSet<u64>) -> (garbage: Vec<String>)
    ensures
        garbage@ == names@.filter(|n: String| is_leftover(n@, epoch, named@)),
{
    let ghost stale = |n: String| is_leftover(n@, epoch, named@);
    let mut garbage: Vec<String> = Vec::new();
    let mut i: usize = 0;
    proof {
        reveal(Seq::filter);
    }
    assert(names@.take(0).filter(stale) =~= garbage@);
    while i < names.len()
        invariant
            i <= names@.len(),
            stale == (|n: String| is_leftover(n@, epoch, named@)),
            garbage@ == names@.take(i as int).filter(stale),
        decreases names@.len() - i,
    {
        let drop_it = match classify(names[i].as_str()) {
            FileRole::Wal(e) => e != epoch,
            FileRole::Segment(id) => !named.contains(&id),
            FileRole::Sidecar(id) => !named.contains(&id),
            FileRole::Foreign => false,
        };
        proof {
            assert(names@.take(i + 1) =~= names@.take(i as int).push(names@[i as int]));
            names@.take(i as int).lemma_filter_push(names@[i as int], stale);
        }
        if drop_it {
            garbage.push(names[i].clone());
        }
        i += 1;
    }
    assert(names@.take(i as int) =~= names@);
    garbage
}

/// The files and sidecars of segments outside the manifest, among all those found.
pub fn orphans(names: &[String], named: &HashSet<u64>) -> (garbage: Vec<String>)
    ensures
        garbage@ == names@.filter(|n: String| is_orphan(n@, named@)),
{
    let ghost stale = |n: String| is_orphan(n@, named@);
    let mut garbage: Vec<String> = Vec::new();
    let mut i: usize = 0;
    proof {
        reveal(Seq::filter);
    }
    assert(names@.take(0).filter(stale) =~= garbage@);
    while i < names.len()
        invariant
            i <= names@.len(),
            stale == (|n: String| is_orphan(n@, named@)),
            garbage@ == names@.take(i as int).filter(stale),
        decreases names@.len() - i,
    {
        let drop_it = match classify(names[i].as_str()) {
            FileRole::Segment(id) => !named.contains(&id),
            FileRole::Sidecar(id) => !named.contains(&id),
            _ => false,
        };
        proof {
            assert(names@.take(i + 1) =~= names@.take(i as int).push(names@[i as int]));
            names@.take(i as int).lemma_filter_push(names@[i as int], stale);
        }
        if drop_it {
            garbage.push(names[i].clone());
        }
        i += 1;
    }
    assert(names@.take(i as int) =~= names@);
    garbage
}

/// What a directory holds and offers, as far as opening a store depends on it.
#[derive(Debug, Clone, Copy)]
pub struct DirectoryProbe {
    /// Whether [`LEGACY_WAL_PATH`] exists.
    pub legacy_wal: bool,
    /// Whether [`LEGACY_CKPT_PATH`] exists.
    pub legacy_ckpt: bool,
    /// Whether [`MANIFEST_PATH`] exists.
    pub manifest: bool,
    /// Whether the directory is backed by a file system.
    pub file_backed: bool,
}

/// What is said of a directory in the 0.1 format.
pub open spec fn legacy_wal_complaint() -> Seq<char> {
    "segstore 0.1 on-disk store detected (unsuffixed segstore.wal); the on-disk format is epoch-suffixed and cannot read it"@
}

/// What is said of a directory in the 0.2 format.
pub open spec fn legacy_ckpt_complaint() -> Seq<char> {
    "segstore 0.2 on-disk store detected (monolithic segstore.ckpt); the 0.3 on-disk format is a manifest + per-segment files and cannot read it"@
}

/// A directory whose format this library reads: no unsuffixed log, and no monolithic
/// checkpoint without a manifest.
pub open spec fn readable_format(probe: DirectoryProbe) -> bool {
    !probe.legacy_wal && (probe.legacy_ckpt ==> probe.manifest)
}

/// Rejects the directories of older formats rather than misread them.
pub fn reject_legacy_formats(probe: &DirectoryProbe) -> (result: PersistenceResult<()>)
    ensures
        result is Ok <==> readable_format(*probe),
        probe.legacy_wal ==> crate::error::config_error(result, legacy_wal_complaint()),
        !probe.legacy_wal && probe.legacy_ckpt && !probe.manifest ==> crate::error::config_error(
            result,
            legacy_ckpt_complaint(),
        ),
{
    if probe.legacy_wal {
        return Err(
            PersistenceError::InvalidConfig(
                String::from_str(
                    "segstore 0.1 on-disk store detected (unsuffixed segstore.wal); the on-disk format is epoch-suffixed and cannot read it",
                ),
            ),
        );
    }
    if probe.legacy_ckpt && !probe.manifest {
        return Err(
            PersistenceError::InvalidConfig(
                String::from_str(
                    "segstore 0.2 on-disk store detected (monolithic segstore.ckpt); the 0.3 on-disk format is a manifest + per-segment files and cannot read it",
                ),
            ),
        );
    }
    Ok(())
}

/// A text behind a prefix is found again.
proof fn behind_concat(prefix: Seq<char>, rest: Seq<char>)
    ensures
        behind(prefix + rest, prefix) == Some(rest),
{
    assert((prefix + rest).take(prefix.len() as int) =~= prefix);
    assert((prefix + rest).skip(prefix.len() as int) =~= rest);
}

/// The three prefixes differ, so no name has two of them.
proof fn prefixes_differ(name: Seq<char>)
    ensures
        behind(name, WAL_PREFIX@) is Some ==> behind(name, SEG_PREFIX@) is None && behind(
            name,
            IDX_PREFIX@,
        ) is None,
        behind(name, SEG_PREFIX@) is Some ==> behind(name, WAL_PREFIX@) is None && behind(
            name,
            IDX_PREFIX@,
        ) is None,
        behind(name, IDX_PREFIX@) is Some ==> behind(name, WAL_PREFIX@) is None && behind(
            name,
            SEG_PREFIX@,
        ) is None,
{
    reveal_strlit("segstore.wal.");
    reveal_strlit("segstore.seg.");
    reveal_strlit("segstore.idx.");
    if behind(name, WAL_PREFIX@) is Some {
        assert(name[9] == name.take(WAL_PREFIX@.len() as int)[9]);
    }
    if behind(name, SEG_PREFIX@) is Some {
        assert(name[9] == name.take(SEG_PREFIX@.len() as int)[9]);
    }
    if behind(name, IDX_PREFIX@) is Some {
        assert(name[9] == name.take(IDX_PREFIX@.len() as int)[9]);
    }
}

/// The name of a log leads back to its epoch.
pub proof fn wal_name_has_its_role(epoch: u64)
    ensures
        role(wal_name(epoch)) == FileRole::Wal(epoch),
{
    behind_concat(WAL_PREFIX@, crate::text::decimal(epoch as nat));
    crate::text::parsed_decimal(epoch);
}

/// The name of a segment file leads back to its segment.
pub proof fn seg_name_has_its_role(id: u64)
    ensures
        role(seg_name(id)) == FileRole::Segment(id),
{
    behind_concat(SEG_PREFIX@, crate::text::decimal(id as nat));
    crate::text::parsed_decimal(id);
    prefixes_differ(seg_name(id));
}

/// The name of a sidecar, of any non-empty kind, leads back to its segment.
pub proof fn idx_name_has_its_role(id: u64, kind: Seq<char>)
    requires
        kind.len() > 0,
    ensures
        sidecar_segment(idx_name(id, kind)) == Some(id),
        role(idx_name(id, kind)) == FileRole::Sidecar(id),
{
    reveal_strlit(".");
    let number = crate::text::decimal(id as nat);
    let rest = number + "."@ + kind;
    crate::text::decimal_stands_for_itself(id as nat);
    crate::text::parsed_decimal(id);
    assert(idx_name(id, kind) =~= IDX_PREFIX@ + rest);
    behind_concat(IDX_PREFIX@, rest);
    prefixes_differ(idx_name(id, kind));
    rest.index_of_first_ensures('.');
    assert(rest[number.len() as int] == '.');
    assert forall|k: int| 0 <= k < number.len() implies rest[k] != '.' by {
        assert(crate::text::is_digit(number[k]));
    }
    let dot = rest.index_of_first('.')->0;
    assert(dot == number.len());
    assert(rest.take(dot) =~= number);
}

/// The manifest is never taken for a log, a segment file or a sidecar.
pub proof fn manifest_is_not_garbage(epoch: u64, named: Set<u64>)
    ensures
        role(MANIFEST_PATH@) == FileRole::Foreign,
        !is_leftover(MANIFEST_PATH@, epoch, named),
        !is_orphan(MANIFEST_PATH@, named),
{
    reveal_strlit("segstore.wal.");
    reveal_strlit("segstore.seg.");
    reveal_strlit("segstore.idx.");
    reveal_strlit("segstore.manifest");
    assert(MANIFEST_PATH@.take(WAL_PREFIX@.len() as int)[9] == 'm');
    assert(WAL_PREFIX@[9] == 'w');
    assert(SEG_PREFIX@[9] == 's');
    assert(IDX_PREFIX@[9] == 'i');
}

/// Garbage collection, on open and after a checkpoint, leaves alone what the
/// manifest needs: the current log, and the file and the sidecars of every segment
/// that it names.
pub proof fn needed_files_are_not_garbage(epoch: u64, named: Set<u64>, id: u64, kind: Seq<char>)
    requires
        named.contains(id),
        kind.len() > 0,
    ensures
        !is_leftover(wal_name(epoch), epoch, named),
        !is_orphan(wal_name(epoch), named),
        !is_leftover(seg_name(id), epoch, named),
        !is_orphan(seg_name(id), named),
        !is_leftover(idx_name(id, kind), epoch, named),
        !is_orphan(idx_name(id, kind), named),
{
    wal_name_has_its_role(epoch);
    seg_name_has_its_role(id);
    idx_name_has_its_role(id, kind);
}

/// Garbage collection takes everything that the manifest has superseded: on open
/// the logs of other epochs, and on open and after a checkpoint the file and the
/// sidecars of every segment that it does not name.
pub proof fn superseded_files_are_garbage(
    epoch: u64,
    old_epoch: u64,
    named: Set<u64>,
    id: u64,
    kind: Seq<char>,
)
    requires
        old_epoch != epoch,
        !named.contains(id),
        kind.len() > 0,
    ensures
        is_leftover(wal_name(old_epoch), epoch, named),
        is_leftover(seg_name(id), epoch, named),
        is_orphan(seg_name(id), named),
        is_leftover(idx_name(id, kind), epoch, named),
        is_orphan(idx_name(id, kind), named),
{
    wal_name_has_its_role(old_epoch);
    seg_name_has_its_role(id);
    idx_name_has_its_role(id, kind);
}

/// A log or segment file is named by its prefix and a number, however that is written; a
/// sidecar by its prefix, a number, a dot and any kind.
pub proof fn numbered_names_have_their_roles(number: Seq<char>, n: u64, kind: Seq<char>)
    requires
        crate::text::parsed(number) == Some(n),
        kind.len() > 0,
    ensures
        role("segstore.wal."@ + number) == FileRole::Wal(n),
        role("segstore.seg."@ + number) == FileRole::Segment(n),
        role("segstore.idx."@ + number + seq!['.'] + kind) == FileRole::Sidecar(n),
{
    let rest = number + seq!['.'] + kind;
    let sidecar = "segstore.idx."@ + number + seq!['.'] + kind;
    behind_concat(WAL_PREFIX@, number);
    behind_concat(SEG_PREFIX@, number);
    behind_concat(IDX_PREFIX@, rest);
    prefixes_differ("segstore.seg."@ + number);
    assert(sidecar =~= IDX_PREFIX@ + rest);
    prefixes_differ(sidecar);
    crate::text::numbers_are_digits(number);
    rest.index_of_first_ensures('.');
    assert(rest[number.len() as int] == '.');
    assert(rest.contains('.'));
    assert forall|k: int| 0 <= k < number.len() implies rest[k] != '.' by {
        assert(rest[k] == number[k]);
    }
    let dot = rest.index_of_first('.')->0;
    assert(dot == number.len());
    assert(rest.take(dot) =~= number);
}

/// Every file that is the store's own is named so; no other file is ever garbage. The
/// result is the number in the name, and the kind of a sidecar.
pub proof fn roles_are_read_off_names(name: Seq<char>, epoch: u64, named: Set<u64>) -> (parts: (
    Seq<char>,
    Seq<char>,
))
    ensures
        match role(name) {
            FileRole::Wal(n) => name == "segstore.wal."@ + parts.0 && crate::text::parsed(parts.0)
                == Some(n),
            FileRole::Segment(n) => name == "segstore.seg."@ + parts.0 && crate::text::parsed(
                parts.0,
            ) == Some(n),
            FileRole::Sidecar(n) => name == "segstore.idx."@ + parts.0 + seq!['.'] + parts.1
                && parts.1.len() > 0 && crate::text::parsed(parts.0) == Some(n),
            FileRole::Foreign => !is_leftover(name, epoch, named) && !is_orphan(name, named),
        },
{
    match role(name) {
        FileRole::Wal(n) => {
            let rest = behind(name, WAL_PREFIX@)->0;
            assert(name =~= name.take(WAL_PREFIX@.len() as int) + rest);
            (rest, Seq::empty())
        },
        FileRole::Segment(n) => {
            let rest = behind(name, SEG_PREFIX@)->0;
            assert(name =~= name.take(SEG_PREFIX@.len() as int) + rest);
            (rest, Seq::empty())
        },
        FileRole::Sidecar(n) => {
            let rest = behind(name, IDX_PREFIX@)->0;
            rest.index_of_first_ensures('.');
            let dot = rest.index_of_first('.')->0;
            let number = rest.take(dot);
            let kind = rest.skip(dot + 1);
            assert(rest =~= number + seq!['.'] + kind);
            assert(name =~= name.take(IDX_PREFIX@.len() as int) + rest);
            assert(name =~= "segstore.idx."@ + number + seq!['.'] + kind);
            (number, kind)
        },
        FileRole::Foreign => (Seq::empty(), Seq::empty()),
    }
}

/// The kinds that new names may carry, by the codes of their characters: digits, capital
/// and small letters, the hyphen and the underscore.
pub proof fn kinds_are_ascii_words(kind: Seq<char>)
    ensures
        valid_kind(kind) <==> kind.len() > 0 && forall|i: int|
            0 <= i < kind.len() ==> {
                let c = #[trigger] kind[i] as int;
                48 <= c <= 57 || 65 <= c <= 90 || 97 <= c <= 122 || c == 45 || c == 95
            },
{
    if kind.len() > 0 && forall|i: int|
        0 <= i < kind.len() ==> {
            let c = #[trigger] kind[i] as int;
            48 <= c <= 57 || 65 <= c <= 90 || 97 <= c <= 122 || c == 45 || c == 95
        } {
        assert forall|i: int| 0 <= i < kind.len() implies is_kind_char(#[trigger] kind[i]) by {
            let c = kind[i] as int;
        }
    }
    if valid_kind(kind) {
        assert forall|i: int| 0 <= i < kind.len() implies {
            let c = #[trigger] kind[i] as int;
            48 <= c <= 57 || 65 <= c <= 90 || 97 <= c <= 122 || c == 45 || c == 95
        } by {
            assert(is_kind_char(kind[i]));
        }
    }
}

/// A log is garbage on open unless it is that of the epoch; a segment file or sidecar is
/// garbage, on open and after a checkpoint, unless its segment is named.
pub proof fn numbered_files_are_garbage_unless_needed(
    number: Seq<char>,
    n: u64,
    kind: Seq<char>,
    epoch: u64,
    named: Set<u64>,
)
    requires
        crate::text::parsed(number) == Some(n),
        kind.len() > 0,
    ensures
        is_leftover("segstore.wal."@ + number, epoch, named) <==> n != epoch,
        !is_orphan("segstore.wal."@ + number, named),
        is_leftover("segstore.seg."@ + number, epoch, named) <==> !named.contains(n),
        is_orphan("segstore.seg."@ + number, named) <==> !named.contains(n),
        is_leftover("segstore.idx."@ + number + seq!['.'] + kind, epoch, named)
            <==> !named.contains(n),
        is_orphan("segstore.idx."@ + number + seq!['.'] + kind, named) <==> !named.contains(n),
{
    numbered_names_have_their_roles(number, n, kind);
}

/// How files are named: a prefix and a number in decimal, and for sidecars a dot and the
/// kind behind it.
pub proof fn names_are_spelled_so(n: u64, kind: Seq<char>)
    ensures
        wal_name(n) == "segstore.wal."@ + crate::text::decimal(n as nat),
        seg_name(n) == "segstore.seg."@ + crate::text::decimal(n as nat),
        idx_name(n, kind) == "segstore.idx."@ + crate::text::decimal(n as nat) + seq!['.'] + kind,
{
    reveal_strlit(".");
    assert("."@ =~= seq!['.']);
}

/// A directory can be read unless it holds an unsuffixed log, or a monolithic checkpoint
/// and no manifest.
pub proof fn older_formats_are_not_read(probe: DirectoryProbe)
    ensures
        probe.legacy_wal ==> !readable_format(probe),
        probe.legacy_ckpt && !probe.manifest ==> !readable_format(probe),
        !probe.legacy_wal && !probe.legacy_ckpt ==> readable_format(probe),
        !probe.legacy_wal && probe.manifest ==> readable_format(probe),
{
}

} // verus!
