//! Relocation of an env.
//!
//! An env is built with the sentinel `__TOOLBOX_PREFIX__` wherever a reference
//! to the env's own root path is needed. Before the env is used at a mount
//! point, the sentinel, or on later moves the prefix that was patched in last,
//! is rewritten to the current mount path.
//!
//! `scan_for_sentinel` describes every file that holds the sentinel. `apply`
//! patches the files that this index names. Text files are rewritten; binary
//! files are patched in place and keep their size: each slot recorded at scan
//! time takes the new prefix and the slot's suffix, padded with NULs, and the
//! whole relocation is refused if that does not fit.

use crate::bytes::{
    append, contains, find_all, hits, law_no_occurrence_is_missed, lemma_hits, matches_at,
    replace_bytes,
};
use crate::strmap::StrMap;
use crate::text::{
    among, decimal, digits, is_white, join, joined, law_joined, law_trimmed, lemma_replaced_up_to,
    occurs_at, occurs_in, replace_char, replaced, replaced_from, same, texts, trim, trimmed,
    with_char,
};
use vstd::prelude::*;
use vstd::utf8::encode_utf8;

verus! {

/// What stands for the env's root path in a file that was never relocated.
pub const PREFIX_SENTINEL: &'static str = "__TOOLBOX_PREFIX__";

/// How many bytes the sentinel has.
pub const SENTINEL_LEN: usize = 18;

/// Where an env keeps its relocation index.
pub const RELOCATE_FILE: &'static str = ".toolbox/relocate.json";

/// Where an env keeps the prefix that its files carry.
pub const LAST_PREFIX_FILE: &'static str = ".toolbox/last-prefix";

/// Files larger than this are not indexed.
pub const MAX_SCAN_FILE_BYTES: u64 = 268435456;

/// How many bytes decide whether a file is binary.
pub const BINARY_PROBE_BYTES: usize = 8192;

/// How a file is patched.
#[derive(Debug, Clone, Copy, PartialEq, Eq, Structural)]
pub enum FileKind {
    Text,
    Binary,
}

/// A place in a binary file that holds the prefix.
#[derive(Debug, Clone, Copy, PartialEq, Eq, Structural)]
pub struct BinarySlot {
    /// Where the prefix begins in the file.
    pub offset: u64,
    /// Bytes from `offset` up to the next NUL.
    pub slot_len: u32,
}

/// A file that carries the prefix.
#[derive(Debug, Clone, PartialEq, Eq)]
pub struct RelocateEntry {
    /// Path within the env, with forward slashes.
    pub path: String,
    pub kind: FileKind,
    /// Empty for a text file.
    pub binary_slots: Vec<BinarySlot>,
}

/// The files of an env that carry the prefix.
#[derive(Debug, Clone, PartialEq, Eq)]
pub struct RelocateIndex {
    pub entries: Vec<RelocateEntry>,
}

/// What an index entry says.
#[verifier::ext_equal]
pub struct EntryModel {
    pub path: Seq<char>,
    pub kind: FileKind,
    pub slots: Seq<BinarySlot>,
}

impl View for RelocateEntry {
    type V = EntryModel;

    open spec fn view(&self) -> EntryModel {
        EntryModel { path: self.path@, kind: self.kind, slots: self.binary_slots@ }
    }
}

impl View for RelocateIndex {
    type V = Seq<EntryModel>;

    open spec fn view(&self) -> Seq<EntryModel> {
        Seq::new(self.entries@.len(), |i: int| self.entries@[i]@)
    }
}

/// The bytes of the sentinel.
pub open spec fn sentinel() -> Seq<u8> {
    encode_utf8(PREFIX_SENTINEL@)
}

// ---- scanning ----

/// A NUL stands among the first bytes of `data`.
pub open spec fn looks_binary(data: Seq<u8>) -> bool {
    exists|i: int| 0 <= i < data.len() && i < BINARY_PROBE_BYTES && data[i] == 0u8
}

/// `n` is how many bytes stand from `start` up to the next NUL or the end.
pub open spec fn reaches_nul(data: Seq<u8>, start: int, n: int) -> bool {
    &&& 0 <= n
    &&& start >= data.len() ==> n == 0
    &&& start < data.len() ==> start + n <= data.len()
    &&& forall|j: int| start <= j < start + n ==> data[j] != 0u8
    &&& start + n < data.len() ==> data[start + n] == 0u8
}

/// Whether `data` is taken for binary.
pub fn is_binary_data(data: &[u8]) -> (r: bool)
    ensures
        r == looks_binary(data@),
{
    let mut i: usize = 0;
    while i < data.len() && i < BINARY_PROBE_BYTES
        invariant
            i <= data@.len(),
            i <= BINARY_PROBE_BYTES,
            forall|j: int| 0 <= j < i ==> data@[j] != 0u8,
        decreases data@.len() - i,
    {
        if data[i] == 0 {
            return true;
        }
        i = i + 1;
    }
    false
}

/// How many bytes stand from `start` up to the next NUL or the end.
pub fn compute_slot_len(data: &[u8], start: usize) -> (r: usize)
    ensures
        reaches_nul(data@, start as int, r as int),
{
    let mut end: usize = start;
    while end < data.len() && data[end] != 0
        invariant
            start <= end,
            start < data@.len() ==> end <= data@.len(),
            start >= data@.len() ==> end == start,
            forall|j: int| start <= j < end ==> data@[j] != 0u8,
        decreases data@.len() - end,
    {
        end = end + 1;
    }
    end - start
}

/// `slots` are the places of the sentinel in `data`, each reaching to its NUL.
pub open spec fn slots_of(data: Seq<u8>, slots: Seq<BinarySlot>) -> bool {
    let h = hits(data, sentinel());
    &&& slots.len() == h.len()
    &&& forall|i: int|
        0 <= i < slots.len() ==> (#[trigger] slots[i]).offset as int == h[i] && reaches_nul(
            data,
            h[i],
            slots[i].slot_len as int,
        )
}

/// The path within the env that `components` spell, with forward slashes.
pub open spec fn index_path(components: Seq<Seq<char>>) -> Seq<char> {
    with_char(joined(components, "/"@), '\\', '/')
}

/// The file belongs to the env's own metadata.
pub open spec fn is_metadata(components: Seq<Seq<char>>) -> bool {
    components.len() > 0 && components[0] == ".toolbox"@
}

/// A file that the index names: it is no metadata, not too large, and holds
/// the sentinel.
pub open spec fn is_indexed(components: Seq<Seq<char>>, data: Seq<u8>) -> bool {
    &&& !is_metadata(components)
    &&& data.len() <= MAX_SCAN_FILE_BYTES
    &&& occurs_in(data, sentinel())
}

/// `e` is the entry of an indexed file.
pub open spec fn describes(e: EntryModel, components: Seq<Seq<char>>, data: Seq<u8>) -> bool {
    &&& e.path == index_path(components)
    &&& e.kind == (if looks_binary(data) {
        FileKind::Binary
    } else {
        FileKind::Text
    })
    &&& if looks_binary(data) {
        slots_of(data, e.slots)
    } else {
        e.slots == Seq::<BinarySlot>::empty()
    }
}

/// Whether a file is left out of the index whatever it holds: metadata, or
/// more than `MAX_SCAN_FILE_BYTES` long.
pub fn is_skipped(components: &Vec<String>, len: u64) -> (r: bool)
    ensures
        r == (is_metadata(texts(components@)) || len > MAX_SCAN_FILE_BYTES),
{
    if len > MAX_SCAN_FILE_BYTES {
        return true;
    }
    components.len() > 0 && same(components[0].as_str(), ".toolbox")
}

/// The index entry of one file, if it is to be indexed. `components` are the
/// parts of its path below the env root.
pub fn scan_file(components: &Vec<String>, data: &[u8]) -> (r: Option<RelocateEntry>)
    ensures
        r is Some <==> is_indexed(texts(components@), data@),
        r matches Some(e) ==> describes(e@, texts(components@), data@),
        r is Some <==> !(components@.len() > 0 && components@[0]@ == ".toolbox"@) && data@.len()
            <= 268435456 && exists|j: int|
            0 <= j && j + 18 <= data@.len() && #[trigger] data@.subrange(j, j + 18) == encode_utf8(
                "__TOOLBOX_PREFIX__"@,
            ),
        r matches Some(e) ==> (e.kind == FileKind::Binary <==> exists|z: int|
            0 <= z < data@.len() && z < 8192 && #[trigger] data@[z] == 0u8),
{
    proof {
        lemma_sentinel();
        lemma_holds_sentinel(data@);
        assert(texts(components@).len() == components@.len());
        if components@.len() > 0 {
            assert(texts(components@)[0] == components@[0]@);
        }
    }
    if is_skipped(components, data.len() as u64) {
        return None;
    }
    let pat = PREFIX_SENTINEL.as_bytes();
    if !contains(data, pat) {
        return None;
    }
    let path = replace_char(join(components, "/").as_str(), '\\', '/');
    if !is_binary_data(data) {
        return Some(RelocateEntry { path, kind: FileKind::Text, binary_slots: Vec::new() });
    }
    let found = find_all(data, pat);
    let ghost h = hits(data@, sentinel());
    let mut slots: Vec<BinarySlot> = Vec::new();
    let mut i: usize = 0;
    assert(found@.map_values(|x: usize| x as int).len() == found@.len());
    while i < found.len()
        invariant
            i <= found.len(),
            data@.len() <= MAX_SCAN_FILE_BYTES,
            found@.len() == h.len(),
            found@.map_values(|x: usize| x as int) == h,
            h == hits(data@, sentinel()),
            sentinel().len() > 0,
            slots@.len() == i,
            forall|j: int|
                0 <= j < i ==> (#[trigger] slots@[j]).offset as int == h[j] && reaches_nul(
                    data@,
                    h[j],
                    slots@[j].slot_len as int,
                ),
        decreases found.len() - i,
    {
        let off = found[i];
        let n = compute_slot_len(data, off);
        proof {
            lemma_hits(data@, sentinel(), 0);
            assert(found@.map_values(|x: usize| x as int)[i as int] == off as int);
            assert(occurs_at(data@, sentinel(), h[i as int]));
        }
        slots.push(BinarySlot { offset: off as u64, slot_len: n as u32 });
        i = i + 1;
    }
    Some(RelocateEntry { path, kind: FileKind::Binary, binary_slots: slots })
}

proof fn lemma_holds_sentinel(data: Seq<u8>)
    ensures
        occurs_in(data, sentinel()) <==> exists|j: int|
            0 <= j && j + 18 <= data.len() && #[trigger] data.subrange(j, j + 18) == encode_utf8(
                "__TOOLBOX_PREFIX__"@,
            ),
{
    lemma_sentinel();
    if occurs_in(data, sentinel()) {
        let j = choose|j: int| #[trigger] occurs_at(data, sentinel(), j);
        assert(data.subrange(j, j + 18) == sentinel());
    }
    if exists|j: int|
        0 <= j && j + 18 <= data.len() && #[trigger] data.subrange(j, j + 18) == encode_utf8(
            "__TOOLBOX_PREFIX__"@,
        ) {
        let j = choose|j: int|
            0 <= j && j + 18 <= data.len() && #[trigger] data.subrange(j, j + 18) == encode_utf8(
                "__TOOLBOX_PREFIX__"@,
            );
        assert(occurs_at(data, sentinel(), j));
    }
}

/// A file met while walking an env tree; `data` is absent where it could not
/// be read.
pub struct TreeFile {
    pub components: Vec<String>,
    pub data: Option<Vec<u8>>,
}

/// Whether the index names the file.
pub open spec fn file_indexed(f: TreeFile) -> bool {
    f.data matches Some(d) && is_indexed(texts(f.components@), d@)
}

/// `index` holds the entries of the indexed files of `files`, in order.
pub open spec fn is_scan(files: Seq<TreeFile>, index: Seq<EntryModel>) -> bool
    decreases files.len(),
{
    if files.len() == 0 {
        index.len() == 0
    } else if file_indexed(files.last()) {
        &&& index.len() > 0
        &&& describes(
            index.last(),
            texts(files.last().components@),
            files.last().data->0@,
        )
        &&& is_scan(files.drop_last(), index.drop_last())
    } else {
        is_scan(files.drop_last(), index)
    }
}

/// The index of every file that holds the sentinel.
pub fn scan_for_sentinel(files: &Vec<TreeFile>) -> (r: RelocateIndex)
    ensures
        is_scan(files@, r@),
{
    let mut r = RelocateIndex { entries: Vec::new() };
    let mut i: usize = 0;
    while i < files.len()
        invariant
            i <= files.len(),
            is_scan(files@.take(i as int), r@),
        decreases files.len() - i,
    {
        let ghost before = r@;
        assert(files@.take(i + 1).drop_last() =~= files@.take(i as int));
        if let Some(data) = &files[i].data {
            if let Some(e) = scan_file(&files[i].components, data.as_slice()) {
                r.entries.push(e);
                assert(r@.drop_last() =~= before);
            }
        }
        i = i + 1;
    }
    assert(files@.take(files@.len() as int) =~= files@);
    r
}

/// The sentinel is eighteen bytes, none of them NUL.
pub proof fn lemma_sentinel()
    ensures
        sentinel().len() == 18,
        forall|i: int| 0 <= i < 18 ==> #[trigger] sentinel()[i] != 0u8,
{
    reveal_strlit("__TOOLBOX_PREFIX__");
    vstd::utf8::is_ascii_chars_encode_utf8("__TOOLBOX_PREFIX__"@);
}

// ---- patching ----

/// The files of an env and the content of its last-prefix file.
pub struct EnvTree {
    pub files: StrMap<Vec<u8>>,
    pub last_prefix_file: Option<String>,
}

/// What an env tree holds.
#[verifier::ext_equal]
pub struct TreeModel {
    pub files: Map<Seq<char>, Seq<u8>>,
    pub last_prefix_file: Option<Seq<char>>,
}

impl View for EnvTree {
    type V = TreeModel;

    open spec fn view(&self) -> TreeModel {
        TreeModel {
            files: self.files@,
            last_prefix_file: match self.last_prefix_file {
                Some(s) => Some(s@),
                None => None,
            },
        }
    }
}

/// Why a slot cannot take the new prefix.
#[derive(Debug, Clone, Copy, PartialEq, Eq, Structural)]
pub enum SlotError {
    /// The file ends before the slot does.
    OutOfRange,
    /// The slot does not start with the previous prefix.
    Mismatch,
    /// New prefix and suffix need more bytes than the slot has.
    TooLong { needed: u128 },
}

/// Why a file cannot be patched.
#[derive(Debug, Clone, Copy, PartialEq, Eq, Structural)]
pub enum FileError {
    /// The file is not there.
    Missing,
    /// The slot at this position of the entry cannot be patched.
    Slot { slot: usize, error: SlotError },
}

/// Why a relocation failed, and at which entry of the index.
#[derive(Debug, Clone, Copy, PartialEq, Eq, Structural)]
pub enum RelocateError {
    /// Found before anything was written.
    Validate { entry: usize, cause: FileError },
    /// Found while writing; the entries before it are patched.
    Patch { entry: usize, cause: FileError },
}

/// The slot at position `i` of an entry, an empty one where there is none.
pub open spec fn slot_at(e: EntryModel, i: int) -> BinarySlot {
    if 0 <= i < e.slots.len() {
        e.slots[i]
    } else {
        BinarySlot { offset: 0, slot_len: 0 }
    }
}

/// Why the entry's file, which is at `file`, cannot be patched.
pub open spec fn file_error_text(c: FileError, e: EntryModel, file: Seq<char>) -> Seq<char> {
    match c {
        FileError::Missing => "no such file: "@ + file,
        FileError::Slot { slot, error } => match error {
            SlotError::OutOfRange => "slot at offset "@ + digits(
                slot_at(e, slot as int).offset as nat,
            ) + " lies beyond the end of "@ + file,
            SlotError::Mismatch => "slot at offset "@ + digits(
                slot_at(e, slot as int).offset as nat,
            ) + " in "@ + file
                + " no longer starts with the expected previous prefix \u{2014} env state inconsistent"@,
            SlotError::TooLong { needed } => "new prefix + suffix ("@ + digits(needed as nat)
                + " bytes) exceeds slot of "@ + digits(slot_at(e, slot as int).slot_len as nat)
                + " bytes at offset "@ + digits(slot_at(e, slot as int).offset as nat) + " in "@
                + file + " \u{2014} env not relocatable to this path"@,
        },
    }
}

impl FileError {
    /// Why the entry's file, which is at `file`, cannot be patched.
    pub fn message(&self, e: &RelocateEntry, file: &str) -> (r: String)
        ensures
            r@ == file_error_text(*self, e@, file@),
    {
        match self {
            FileError::Missing => {
                let mut r = "no such file: ".to_owned();
                r.push_str(file);
                r
            },
            FileError::Slot { slot, error } => {
                let at = if *slot < e.binary_slots.len() {
                    e.binary_slots[*slot]
                } else {
                    BinarySlot { offset: 0, slot_len: 0 }
                };
                match error {
                    SlotError::OutOfRange => {
                        let mut r = "slot at offset ".to_owned();
                        r.push_str(decimal(at.offset as u128).as_str());
                        r.push_str(" lies beyond the end of ");
                        r.push_str(file);
                        r
                    },
                    SlotError::Mismatch => {
                        let mut r = "slot at offset ".to_owned();
                        r.push_str(decimal(at.offset as u128).as_str());
                        r.push_str(" in ");
                        r.push_str(file);
                        r.push_str(
                            " no longer starts with the expected previous prefix \u{2014} env state inconsistent",
                        );
                        r
                    },
                    SlotError::TooLong { needed } => {
                        let mut r = "new prefix + suffix (".to_owned();
                        r.push_str(decimal(*needed).as_str());
                        r.push_str(" bytes) exceeds slot of ");
                        r.push_str(decimal(at.slot_len as u128).as_str());
                        r.push_str(" bytes at offset ");
                        r.push_str(decimal(at.offset as u128).as_str());
                        r.push_str(" in ");
                        r.push_str(file);
                        r.push_str(" \u{2014} env not relocatable to this path");
                        r
                    },
                }
            },
        }
    }
}

/// The slot lies within the file.
pub open spec fn in_range(data: Seq<u8>, slot: BinarySlot) -> bool {
    slot.slot_len == 0 || slot.offset + slot.slot_len <= data.len()
}

/// The bytes of the slot.
pub open spec fn region(data: Seq<u8>, slot: BinarySlot) -> Seq<u8> {
    if slot.slot_len == 0 {
        Seq::empty()
    } else {
        data.subrange(slot.offset as int, slot.offset + slot.slot_len)
    }
}

/// `s` without the NULs at its end.
pub open spec fn stripped(s: Seq<u8>) -> Seq<u8>
    decreases s.len(),
{
    if s.len() > 0 && s.last() == 0u8 {
        stripped(s.drop_last())
    } else {
        s
    }
}

/// `s` cut or filled with NULs to `n` bytes.
pub open spec fn resized(s: Seq<u8>, n: nat) -> Seq<u8> {
    Seq::new(n, |i: int| if i < s.len() { s[i] } else { 0u8 })
}

/// A string of a binary file that holds the prefix once or more: the slot that
/// reaches from its first reference to its NUL, the position of that slot in the
/// entry, and how far from its start each reference stood when the string held
/// the sentinel.
pub struct PatchModel {
    pub slot: BinarySlot,
    pub first: int,
    pub refs: Seq<int>,
}

/// The reference at `s` is in the same string as the slots of `p`.
pub open spec fn joins(p: PatchModel, s: BinarySlot) -> bool {
    p.slot.offset < s.offset < p.slot.offset + p.slot.slot_len
}

/// The strings that the slots of an entry stand in, each with its references.
pub open spec fn patches(slots: Seq<BinarySlot>) -> Seq<PatchModel>
    decreases slots.len(),
{
    if slots.len() == 0 {
        Seq::empty()
    } else {
        let done = patches(slots.drop_last());
        let s = slots.last();
        if done.len() > 0 && joins(done.last(), s) {
            let p = done.last();
            done.drop_last().push(
                PatchModel { refs: p.refs.push(s.offset - p.slot.offset), ..p },
            )
        } else {
            done.push(PatchModel { slot: s, first: slots.len() - 1, refs: seq![0int] })
        }
    }
}

/// References at `refs` lie one after the other between `cur` and `len`, once
/// each of them has `n` bytes in place of those of the sentinel. `shift` is how
/// far the references before have moved them.
pub open spec fn placed(refs: Seq<int>, len: int, n: int, cur: int, shift: int) -> bool
    decreases refs.len(),
{
    if refs.len() == 0 {
        cur <= len
    } else {
        let at = refs[0] + shift;
        cur <= at && at + n <= len && placed(
            refs.drop_first(),
            len,
            n,
            at + n,
            shift + n - SENTINEL_LEN,
        )
    }
}

/// The string `r` holds `prev` at each of its references.
pub open spec fn stands(r: Seq<u8>, refs: Seq<int>, prev: Seq<u8>, cur: int, shift: int) -> bool
    decreases refs.len(),
{
    if refs.len() == 0 {
        cur <= r.len()
    } else {
        let at = refs[0] + shift;
        cur <= at && occurs_at(r, prev, at) && stands(
            r,
            refs.drop_first(),
            prev,
            at + prev.len(),
            shift + prev.len() - SENTINEL_LEN,
        )
    }
}

/// The string `r` from `cur` on, with `new` in place of the `n` bytes at each
/// reference, and without the padding.
pub open spec fn rewritten(
    r: Seq<u8>,
    refs: Seq<int>,
    n: int,
    new: Seq<u8>,
    cur: int,
    shift: int,
) -> Seq<u8>
    decreases refs.len(),
{
    if refs.len() == 0 {
        stripped(r.subrange(cur, r.len() as int))
    } else {
        let at = refs[0] + shift;
        r.subrange(cur, at) + new + rewritten(
            r,
            refs.drop_first(),
            n,
            new,
            at + n,
            shift + n - SENTINEL_LEN,
        )
    }
}

/// What the bytes of a string become when at each reference a prefix of `n`
/// bytes gives way to `new`: what follows moves up, and NULs fill the end.
pub open spec fn patched_region(r: Seq<u8>, refs: Seq<int>, n: int, new: Seq<u8>) -> Seq<u8> {
    resized(rewritten(r, refs, n, new, 0, 0), r.len())
}

/// What stands in the way of putting `new` in place of `prev` in the string.
pub open spec fn slot_problem(
    data: Seq<u8>,
    p: PatchModel,
    prev: Seq<u8>,
    new: Seq<u8>,
) -> Option<SlotError> {
    let r = region(data, p.slot);
    let needed = rewritten(r, p.refs, prev.len() as int, new, 0, 0).len();
    if !in_range(data, p.slot) {
        Some(SlotError::OutOfRange)
    } else if !stands(r, p.refs, prev, 0, 0) {
        Some(SlotError::Mismatch)
    } else if needed > p.slot.slot_len {
        Some(SlotError::TooLong { needed: needed as u128 })
    } else {
        None
    }
}

/// The first problem among the strings from position `i` on.
pub open spec fn first_problem(
    data: Seq<u8>,
    ps: Seq<PatchModel>,
    prev: Seq<u8>,
    new: Seq<u8>,
    i: int,
) -> Option<FileError>
    decreases ps.len() - i,
{
    if i < 0 || i >= ps.len() {
        None
    } else {
        match slot_problem(data, ps[i], prev, new) {
            Some(error) => Some(FileError::Slot { slot: ps[i].first as usize, error }),
            None => first_problem(data, ps, prev, new, i + 1),
        }
    }
}

/// `data` with the bytes of the string patched.
pub open spec fn slot_written(data: Seq<u8>, p: PatchModel, n: int, new: Seq<u8>) -> Seq<u8> {
    let w = patched_region(region(data, p.slot), p.refs, n, new);
    Seq::new(
        data.len(),
        |i: int|
            if p.slot.offset <= i < p.slot.offset + p.slot.slot_len {
                w[i - p.slot.offset]
            } else {
                data[i]
            },
    )
}

/// `data` with the strings patched one after the other, up to the first that is
/// out of range.
pub open spec fn slots_written(data: Seq<u8>, ps: Seq<PatchModel>, n: int, new: Seq<u8>) -> Seq<u8>
    decreases ps.len(),
{
    if ps.len() == 0 || !in_range(data, ps[0].slot) {
        data
    } else {
        slots_written(slot_written(data, ps[0], n, new), ps.drop_first(), n, new)
    }
}

/// The first string from position `i` on that is out of range.
pub open spec fn first_out_of_range(data: Seq<u8>, ps: Seq<PatchModel>, i: int) -> Option<FileError>
    decreases ps.len() - i,
{
    if i < 0 || i >= ps.len() {
        None
    } else if !in_range(data, ps[i].slot) {
        Some(FileError::Slot { slot: ps[i].first as usize, error: SlotError::OutOfRange })
    } else {
        first_out_of_range(data, ps, i + 1)
    }
}

/// What forbids the whole relocation, as seen at entry `e`.
pub open spec fn entry_problem(
    files: Map<Seq<char>, Seq<u8>>,
    e: EntryModel,
    prev: Seq<u8>,
    new: Seq<u8>,
) -> Option<FileError> {
    match e.kind {
        FileKind::Text => None,
        FileKind::Binary => if !files.contains_key(e.path) {
            Some(FileError::Missing)
        } else {
            first_problem(files[e.path], patches(e.slots), prev, new, 0)
        },
    }
}

/// What makes the patching of entry `e` fail.
pub open spec fn patch_problem(files: Map<Seq<char>, Seq<u8>>, e: EntryModel) -> Option<
    FileError,
> {
    if !files.contains_key(e.path) {
        Some(FileError::Missing)
    } else {
        match e.kind {
            FileKind::Text => None,
            FileKind::Binary => first_out_of_range(files[e.path], patches(e.slots), 0),
        }
    }
}

/// The content of the entry's file once it is patched.
pub open spec fn patched_data(
    data: Seq<u8>,
    e: EntryModel,
    prev: Seq<u8>,
    new: Seq<u8>,
) -> Seq<u8> {
    match e.kind {
        FileKind::Text => replaced(data, prev, new),
        FileKind::Binary => slots_written(data, patches(e.slots), prev.len() as int, new),
    }
}

/// The files once entry `e` is patched.
pub open spec fn entry_patched(
    files: Map<Seq<char>, Seq<u8>>,
    e: EntryModel,
    prev: Seq<u8>,
    new: Seq<u8>,
) -> Map<Seq<char>, Seq<u8>> {
    if files.contains_key(e.path) {
        files.insert(e.path, patched_data(files[e.path], e, prev, new))
    } else {
        files
    }
}

/// The files once the first `n` entries are patched.
pub open spec fn patched_files(
    files: Map<Seq<char>, Seq<u8>>,
    index: Seq<EntryModel>,
    prev: Seq<u8>,
    new: Seq<u8>,
    n: int,
) -> Map<Seq<char>, Seq<u8>>
    decreases n,
{
    if n <= 0 {
        files
    } else {
        entry_patched(patched_files(files, index, prev, new, n - 1), index[n - 1], prev, new)
    }
}

/// No entry before `n` forbids the relocation.
pub open spec fn valid_up_to(
    files: Map<Seq<char>, Seq<u8>>,
    index: Seq<EntryModel>,
    prev: Seq<u8>,
    new: Seq<u8>,
    n: int,
) -> bool {
    forall|j: int| 0 <= j < n ==> entry_problem(files, #[trigger] index[j], prev, new) is None
}

/// The entries before `n` can be patched one after the other.
pub open spec fn patchable_up_to(
    files: Map<Seq<char>, Seq<u8>>,
    index: Seq<EntryModel>,
    prev: Seq<u8>,
    new: Seq<u8>,
    n: int,
) -> bool {
    forall|j: int|
        0 <= j < n ==> patch_problem(
            patched_files(files, index, prev, new, j),
            #[trigger] index[j],
        ) is None
}

/// `after` and `r` are what rewriting `prev` to `new` makes of `before`: no
/// change where the two are equal; an error and no change where a binary entry
/// forbids it; else the entries are patched in order, and once all are, the
/// last-prefix file holds `new`.
pub open spec fn relocates(
    before: TreeModel,
    index: Seq<EntryModel>,
    prev: Seq<char>,
    new: Seq<char>,
    after: TreeModel,
    r: Result<(), RelocateError>,
) -> bool {
    let (p, q) = (encode_utf8(prev), encode_utf8(new));
    let len = index.len() as int;
    if prev == new {
        r is Ok && after == before
    } else {
        match r {
            Err(RelocateError::Validate { entry, cause }) => {
                &&& entry < len
                &&& valid_up_to(before.files, index, p, q, entry as int)
                &&& entry_problem(before.files, index[entry as int], p, q) == Some(cause)
                &&& after == before
            },
            Err(RelocateError::Patch { entry, cause }) => {
                &&& entry < len
                &&& valid_up_to(before.files, index, p, q, len)
                &&& patchable_up_to(before.files, index, p, q, entry as int)
                &&& patch_problem(
                    patched_files(before.files, index, p, q, entry as int),
                    index[entry as int],
                ) == Some(cause)
                &&& after.files == patched_files(before.files, index, p, q, entry + 1)
                &&& after.last_prefix_file == before.last_prefix_file
            },
            Ok(()) => {
                &&& valid_up_to(before.files, index, p, q, len)
                &&& patchable_up_to(before.files, index, p, q, len)
                &&& after.files == patched_files(before.files, index, p, q, len)
                &&& after.last_prefix_file == Some(new)
            },
        }
    }
}

/// A string of a binary file and its references.
struct Patch {
    slot: BinarySlot,
    first: usize,
    refs: Vec<u64>,
}

spec fn ref_models(v: Seq<u64>) -> Seq<int> {
    Seq::new(v.len(), |i: int| v[i] as int)
}

impl View for Patch {
    type V = PatchModel;

    closed spec fn view(&self) -> PatchModel {
        PatchModel { slot: self.slot, first: self.first as int, refs: ref_models(self.refs@) }
    }
}

spec fn patch_models(v: Seq<Patch>) -> Seq<PatchModel> {
    Seq::new(v.len(), |i: int| v[i]@)
}

/// The strings that the slots stand in.
fn group(slots: &Vec<BinarySlot>) -> (r: Vec<Patch>)
    ensures
        patch_models(r@) == patches(slots@),
{
    let mut r: Vec<Patch> = Vec::new();
    let mut i: usize = 0;
    assert(patch_models(r@) =~= Seq::<PatchModel>::empty());
    while i < slots.len()
        invariant
            i <= slots.len(),
            patch_models(r@) == patches(slots@.take(i as int)),
        decreases slots.len() - i,
    {
        let s = slots[i];
        let ghost before = patch_models(r@);
        assert(slots@.take(i + 1).drop_last() =~= slots@.take(i as int));
        assert(slots@.take(i + 1).last() == s);
        let n = r.len();
        assert(before.len() == n);
        let same_string = n > 0 && r[n - 1].slot.offset < s.offset && s.offset - r[n
            - 1].slot.offset < r[n - 1].slot.slot_len as u64;
        if same_string {
            let ghost p = before.last();
            let mut last = match r.pop() {
                Some(last) => last,
                None => {
                    return r;
                },
            };
            assert(last@ == p);
            let at = s.offset - last.slot.offset;
            let ghost refs = last.refs@;
            last.refs.push(at);
            proof {
                assert(ref_models(last.refs@) =~= ref_models(refs).push(at as int));
                assert(patch_models(r@) =~= before.drop_last());
            }
            let ghost done = patch_models(r@);
            r.push(last);
            assert(patch_models(r@) =~= done.push(last@));
        } else {
            let mut refs: Vec<u64> = Vec::new();
            refs.push(0);
            let p = Patch { slot: s, first: i, refs };
            assert(ref_models(p.refs@) =~= seq![0int]);
            r.push(p);
            assert(patch_models(r@) =~= before.push(p@));
        }
        i = i + 1;
    }
    assert(slots@.take(slots@.len() as int) =~= slots@);
    r
}

/// Where the bytes of `data` from `from` on end before the NULs that end at
/// `to`.
fn content_end(data: &[u8], from: usize, to: usize) -> (r: usize)
    requires
        from <= to <= data@.len(),
    ensures
        from <= r <= to,
        stripped(data@.subrange(from as int, to as int)) == data@.subrange(from as int, r as int),
{
    let mut end: usize = to;
    let size = data.len();
    while end > from && data[end - 1] == 0
        invariant
            from <= end <= to <= size,
            size == data@.len(),
            stripped(data@.subrange(from as int, end as int)) == stripped(
                data@.subrange(from as int, to as int),
            ),
        decreases end,
    {
        assert(data@.subrange(from as int, end as int).drop_last() =~= data@.subrange(
            from as int,
            end - 1,
        ));
        end = end - 1;
    }
    end
}

/// How many bytes the string takes once `new_len` bytes stand at each of its
/// references; nothing where one of them is not `prev`. The string stands from
/// `off` to `off + len`.
fn measure(data: &[u8], p: &Patch, off: usize, len: usize, prev: &[u8], new: &[u8]) -> (r: Option<
    u128,
>)
    requires
        off + len <= data@.len(),
        len <= u32::MAX,
    ensures
        ({
            let reg = data@.subrange(off as int, off + len);
            match r {
                None => !stands(reg, p@.refs, prev@, 0, 0),
                Some(n) => stands(reg, p@.refs, prev@, 0, 0) && n == rewritten(
                    reg,
                    p@.refs,
                    prev@.len() as int,
                    new@,
                    0,
                    0,
                ).len(),
            }
        }),
{
    let ghost reg = data@.subrange(off as int, off + len);
    let ghost refs = p@.refs;
    let n = prev.len();
    let size = data.len();
    let mut k: usize = 0;
    let mut cur: usize = 0;
    let mut shift: i128 = 0;
    let mut total: u128 = 0;
    assert(refs.skip(0) =~= refs);
    while k < p.refs.len()
        invariant
            k <= p.refs@.len(),
            refs == ref_models(p.refs@),
            size == data@.len(),
            off + len <= size,
            len <= u32::MAX,
            n == prev@.len(),
            reg == data@.subrange(off as int, off + len),
            cur <= len,
            -18 * k <= shift <= len + n,
            total <= cur + k * 0xffff_ffff_ffff_ffff,
            stands(reg, refs, prev@, 0, 0) == stands(
                reg,
                refs.skip(k as int),
                prev@,
                cur as int,
                shift as int,
            ),
            stands(reg, refs, prev@, 0, 0) ==> rewritten(reg, refs, n as int, new@, 0, 0).len()
                == total + rewritten(
                reg,
                refs.skip(k as int),
                n as int,
                new@,
                cur as int,
                shift as int,
            ).len(),
        decreases p.refs@.len() - k,
    {
        let ghost rest = refs.skip(k as int);
        assert(rest.drop_first() =~= refs.skip(k + 1));
        assert(rest[0] == p.refs@[k as int]);
        let at = p.refs[k] as i128 + shift;
        if at < cur as i128 || at > len as i128 {
            return None;
        }
        let here = at as usize;
        let fits = n <= len - here && matches_at(data, prev, off + here);
        proof {
            if n <= len - here {
                assert(reg.subrange(here as int, here + n) =~= data@.subrange(
                    off + here,
                    off + here + n,
                ));
            }
        }
        if !fits {
            return None;
        }
        total = total + (here - cur) as u128 + new.len() as u128;
        cur = here + n;
        shift = shift + n as i128 - 18;
        k = k + 1;
    }
    let end = content_end(data, off + cur, off + len);
    proof {
        assert(reg.subrange(cur as int, len as int) =~= data@.subrange(off + cur, off + len));
        assert(refs.skip(k as int).len() == 0);
    }
    Some(total + (end - (off + cur)) as u128)
}

/// What stands in the way of putting `new` in place of `prev` in the strings of
/// a binary file.
fn validate_binary(data: &[u8], ps: &Vec<Patch>, prev: &[u8], new: &[u8]) -> (r: Option<FileError>)
    ensures
        r == first_problem(data@, patch_models(ps@), prev@, new@, 0),
{
    let ghost all = patch_models(ps@);
    let mut i: usize = 0;
    while i < ps.len()
        invariant
            i <= ps.len(),
            all == patch_models(ps@),
            first_problem(data@, all, prev@, new@, i as int) == first_problem(
                data@,
                all,
                prev@,
                new@,
                0,
            ),
        decreases ps.len() - i,
    {
        let p = &ps[i];
        assert(all[i as int] == p@);
        let len = p.slot.slot_len as usize;
        if !slot_in_range(data, &p.slot) {
            return Some(FileError::Slot { slot: p.first, error: SlotError::OutOfRange });
        }
        let off = if len == 0 {
            0
        } else {
            p.slot.offset as usize
        };
        assert(region(data@, p.slot) =~= data@.subrange(off as int, off + len));
        match measure(data, p, off, len, prev, new) {
            None => {
                return Some(FileError::Slot { slot: p.first, error: SlotError::Mismatch });
            },
            Some(needed) => {
                if needed > len as u128 {
                    return Some(
                        FileError::Slot { slot: p.first, error: SlotError::TooLong { needed } },
                    );
                }
            },
        }
        i = i + 1;
    }
    None
}

/// Whether the slot lies within the file.
fn slot_in_range(data: &[u8], slot: &BinarySlot) -> (r: bool)
    ensures
        r == in_range(data@, *slot),
        r && slot.slot_len > 0 ==> slot.offset <= usize::MAX,
{
    let size = data.len() as u64;
    slot.slot_len == 0 || (slot.offset <= size && slot.slot_len as u64 <= size - slot.offset)
}

/// Patch the strings of a binary file; the error tells the first that is out of
/// range, at which patching stops.
fn apply_binary(data: &mut Vec<u8>, ps: &Vec<Patch>, prev_len: usize, new: &[u8]) -> (r: Option<
    FileError,
>)
    requires
        forall|i: int|
            0 <= i < ps@.len() ==> placed(
                (#[trigger] ps@[i])@.refs,
                ps@[i].slot.slot_len as int,
                prev_len as int,
                0,
                0,
            ),
    ensures
        final(data)@ == slots_written(old(data)@, patch_models(ps@), prev_len as int, new@),
        r == first_out_of_range(old(data)@, patch_models(ps@), 0),
{
    let ghost start = data@;
    let ghost all = patch_models(ps@);
    let mut i: usize = 0;
    assert(all.skip(0) =~= all);
    while i < ps.len()
        invariant
            i <= ps.len(),
            all == patch_models(ps@),
            forall|j: int|
                0 <= j < ps@.len() ==> placed(
                    (#[trigger] ps@[j])@.refs,
                    ps@[j].slot.slot_len as int,
                    prev_len as int,
                    0,
                    0,
                ),
            start == old(data)@,
            data@.len() == start.len(),
            slots_written(data@, all.skip(i as int), prev_len as int, new@) == slots_written(
                start,
                all,
                prev_len as int,
                new@,
            ),
            first_out_of_range(start, all, i as int) == first_out_of_range(start, all, 0),
        decreases ps.len() - i,
    {
        let p = &ps[i];
        assert(all[i as int] == p@);
        assert(all.skip(i as int)[0] == p@);
        assert(all.skip(i as int).drop_first() =~= all.skip(i + 1));
        if !slot_in_range(data.as_slice(), &p.slot) {
            return Some(FileError::Slot { slot: p.first, error: SlotError::OutOfRange });
        }
        write_patch(data, p, prev_len, new);
        i = i + 1;
    }
    None
}

fn push_range(out: &mut Vec<u8>, data: &Vec<u8>, from: usize, to: usize)
    requires
        from <= to <= data@.len(),
    ensures
        final(out)@ == old(out)@ + data@.subrange(from as int, to as int),
{
    let ghost start = out@;
    let mut i: usize = from;
    assert(start + data@.subrange(from as int, from as int) =~= start);
    while i < to
        invariant
            from <= i <= to <= data@.len(),
            out@ == start + data@.subrange(from as int, i as int),
        decreases to - i,
    {
        out.push(data[i]);
        assert(start + data@.subrange(from as int, i + 1) =~= (start + data@.subrange(
            from as int,
            i as int,
        )).push(data@[i as int]));
        i = i + 1;
    }
}

/// Patch one string.
fn write_patch(data: &mut Vec<u8>, p: &Patch, prev_len: usize, new: &[u8])
    requires
        in_range(old(data)@, p.slot),
        p.slot.slot_len > 0 ==> p.slot.offset <= usize::MAX,
        placed(p@.refs, p.slot.slot_len as int, prev_len as int, 0, 0),
    ensures
        final(data)@ == slot_written(old(data)@, p@, prev_len as int, new@),
{
    let len = p.slot.slot_len as usize;
    let ghost start = data@;
    let ghost reg = region(start, p.slot);
    let ghost refs = p@.refs;
    if len == 0 {
        assert(slot_written(start, p@, prev_len as int, new@) =~= start);
        return;
    }
    let off = p.slot.offset as usize;
    let size = data.len();
    let mut out: Vec<u8> = Vec::new();
    let mut k: usize = 0;
    let mut cur: usize = 0;
    let mut shift: i128 = 0;
    let ghost want = rewritten(reg, refs, prev_len as int, new@, 0, 0);
    proof {
        assert(refs.skip(0) =~= refs);
        assert(Seq::<u8>::empty() + want =~= want);
    }
    while k < p.refs.len()
        invariant
            k <= p.refs@.len(),
            refs == ref_models(p.refs@),
            data@ == start,
            size == start.len(),
            off + len <= size,
            len <= u32::MAX,
            reg == start.subrange(off as int, off + len),
            cur <= len,
            -18 * k <= shift <= k * 0xffff_ffff_ffff_ffff,
            placed(refs.skip(k as int), len as int, prev_len as int, cur as int, shift as int),
            want == out@ + rewritten(
                reg,
                refs.skip(k as int),
                prev_len as int,
                new@,
                cur as int,
                shift as int,
            ),
        decreases p.refs@.len() - k,
    {
        let ghost rest = refs.skip(k as int);
        let ghost had = out@;
        assert(rest.drop_first() =~= refs.skip(k + 1));
        assert(rest[0] == p.refs@[k as int]);
        let here = (p.refs[k] as i128 + shift) as usize;
        push_range(&mut out, data, off + cur, off + here);
        append(&mut out, new);
        proof {
            assert(start.subrange(off + cur, off + here) =~= reg.subrange(cur as int, here as int));
            let more = rewritten(
                reg,
                refs.skip(k + 1),
                prev_len as int,
                new@,
                here + prev_len,
                shift + prev_len - 18,
            );
            assert(had + (reg.subrange(cur as int, here as int) + new@ + more) =~= had
                + reg.subrange(cur as int, here as int) + new@ + more);
        }
        cur = here + prev_len;
        shift = shift + prev_len as i128 - 18;
        k = k + 1;
    }
    let end = content_end(data.as_slice(), off + cur, off + len);
    push_range(&mut out, data, off + cur, end);
    proof {
        assert(reg.subrange(cur as int, len as int) =~= start.subrange(off + cur, off + len));
        assert(refs.skip(k as int).len() == 0);
        assert(out@ == want);
    }
    k = 0;
    while k < len
        invariant
            k <= len,
            off + len <= size,
            size == start.len(),
            data@.len() == size,
            out@ == want,
            forall|i: int|
                0 <= i < start.len() ==> #[trigger] data@[i] == (if off <= i < off + k {
                    resized(want, len as nat)[i - off]
                } else {
                    start[i]
                }),
        decreases len - k,
    {
        if k < out.len() {
            data.set(off + k, out[k]);
        } else {
            data.set(off + k, 0);
        }
        k = k + 1;
    }
    assert(data@ =~= slot_written(start, p@, prev_len as int, new@));
}

/// The prefix that the files carry: what the last-prefix file holds, without
/// white space at its ends, or the sentinel where there is no such file.
pub open spec fn carried_prefix(last_prefix_file: Option<Seq<char>>) -> Seq<char> {
    match last_prefix_file {
        Some(s) => trimmed(s),
        None => PREFIX_SENTINEL@,
    }
}

/// The prefix that a last-prefix file with this content names.
pub fn last_prefix(content: &str) -> (r: String)
    ensures
        r@ == trimmed(content@),
{
    trim(content)
}

/// Rewrite the prefix that the env's files carry to `new_prefix`.
pub fn apply(tree: &mut EnvTree, index: &RelocateIndex, new_prefix: &str) -> (r: Result<
    (),
    RelocateError,
>)
    ensures
        relocates(
            old(tree)@,
            index@,
            carried_prefix(old(tree)@.last_prefix_file),
            new_prefix@,
            final(tree)@,
            r,
        ),
{
    let prev = match &tree.last_prefix_file {
        Some(s) => last_prefix(s.as_str()),
        None => PREFIX_SENTINEL.to_owned(),
    };
    apply_with_prev(tree, index, prev.as_str(), new_prefix)
}

/// Rewrite `prev` to `new_prefix` in the files that the index names. Every
/// binary slot is checked before anything is written.
pub fn apply_with_prev(
    tree: &mut EnvTree,
    index: &RelocateIndex,
    prev: &str,
    new_prefix: &str,
) -> (r: Result<(), RelocateError>)
    ensures
        relocates(old(tree)@, index@, prev@, new_prefix@, final(tree)@, r),
{
    if same(prev, new_prefix) {
        return Ok(());
    }
    let p = prev.as_bytes();
    let q = new_prefix.as_bytes();
    let ghost start = tree@;
    let mut i: usize = 0;
    while i < index.entries.len()
        invariant
            i <= index.entries.len(),
            p@ == encode_utf8(prev@),
            q@ == encode_utf8(new_prefix@),
            prev@ != new_prefix@,
            tree@ == start,
            start == old(tree)@,
            valid_up_to(start.files, index@, p@, q@, i as int),
        decreases index.entries.len() - i,
    {
        let e = &index.entries[i];
        assert(index@[i as int] == e@);
        if let FileKind::Binary = e.kind {
            let found = match tree.files.get(e.path.as_str()) {
                None => Some(FileError::Missing),
                Some(data) => validate_binary(data.as_slice(), &group(&e.binary_slots), p, q),
            };
            if let Some(cause) = found {
                return Err(RelocateError::Validate { entry: i, cause });
            }
        }
        i = i + 1;
    }
    i = 0;
    while i < index.entries.len()
        invariant
            i <= index.entries.len(),
            p@ == encode_utf8(prev@),
            q@ == encode_utf8(new_prefix@),
            prev@ != new_prefix@,
            start == old(tree)@,
            valid_up_to(start.files, index@, p@, q@, index@.len() as int),
            patchable_up_to(start.files, index@, p@, q@, i as int),
            tree@.files == patched_files(start.files, index@, p@, q@, i as int),
            tree@.last_prefix_file == start.last_prefix_file,
        decreases index.entries.len() - i,
    {
        let e = &index.entries[i];
        assert(index@[i as int] == e@);
        let ghost now = tree@.files;
        let data = match tree.files.remove(e.path.as_str()) {
            None => {
                assert(tree@.files =~= now);
                return Err(RelocateError::Patch { entry: i, cause: FileError::Missing });
            },
            Some(data) => data,
        };
        let mut data = data;
        let ghost old_data = data@;
        match e.kind {
            FileKind::Text => {
                let patched = replace_bytes(data.as_slice(), p, q);
                tree.files.insert(e.path.clone(), patched);
            },
            FileKind::Binary => {
                let ps = group(&e.binary_slots);
                proof {
                    let all = patches(e@.slots);
                    lemma_no_problems(start.files[e@.path], all, p@, q@, 0);
                    assert forall|i: int| 0 <= i < ps@.len() implies placed(
                        (#[trigger] ps@[i])@.refs,
                        ps@[i].slot.slot_len as int,
                        p@.len() as int,
                        0,
                        0,
                    ) by {
                        assert(all[i] == ps@[i]@);
                        let r = region(start.files[e@.path], all[i].slot);
                        lemma_stands_placed(r, all[i].refs, p@, 0, 0);
                        assert(r.len() == all[i].slot.slot_len);
                    }
                }
                let problem = apply_binary(&mut data, &ps, p.len(), q);
                tree.files.insert(e.path.clone(), data);
                assert(tree@.files =~= now.insert(e@.path, patched_data(old_data, e@, p@, q@)));
                if let Some(cause) = problem {
                    return Err(RelocateError::Patch { entry: i, cause });
                }
            },
        }
        assert(tree@.files =~= now.insert(e@.path, patched_data(old_data, e@, p@, q@)));
        i = i + 1;
    }
    tree.last_prefix_file = Some(new_prefix.to_owned());
    Ok(())
}

/// References that hold `prev` are placed for its length.
proof fn lemma_stands_placed(r: Seq<u8>, refs: Seq<int>, prev: Seq<u8>, cur: int, shift: int)
    requires
        stands(r, refs, prev, cur, shift),
    ensures
        placed(refs, r.len() as int, prev.len() as int, cur, shift),
    decreases refs.len(),
{
    if refs.len() > 0 {
        let at = refs[0] + shift;
        lemma_stands_placed(
            r,
            refs.drop_first(),
            prev,
            at + prev.len(),
            shift + prev.len() - SENTINEL_LEN,
        );
    }
}

/// Where there is no first problem there is none.
proof fn lemma_no_problems(
    data: Seq<u8>,
    ps: Seq<PatchModel>,
    prev: Seq<u8>,
    new: Seq<u8>,
    i: int,
)
    requires
        0 <= i,
        first_problem(data, ps, prev, new, i) is None,
    ensures
        forall|j: int|
            i <= j < ps.len() ==> slot_problem(data, #[trigger] ps[j], prev, new) is None,
    decreases ps.len() - i,
{
    if i < ps.len() {
        lemma_no_problems(data, ps, prev, new, i + 1);
        assert(slot_problem(data, ps[i], prev, new) is None);
    }
}

// ---- laws ----

/// The strings stand one after the other and do not overlap.
pub open spec fn disjoint(ps: Seq<PatchModel>) -> bool {
    forall|i: int, j: int|
        0 <= i < j < ps.len() ==> (#[trigger] ps[i]).slot.offset + ps[i].slot.slot_len <= (
        #[trigger] ps[j]).slot.offset
}

/// Position `i` of the file belongs to string `j`.
pub open spec fn within(ps: Seq<PatchModel>, j: int, i: int) -> bool {
    0 <= j < ps.len() && ps[j].slot.offset <= i < ps[j].slot.offset + ps[j].slot.slot_len
}

/// Patching a binary file keeps its size.
pub proof fn law_binary_size_kept(data: Seq<u8>, ps: Seq<PatchModel>, n: int, new: Seq<u8>)
    ensures
        slots_written(data, ps, n, new).len() == data.len(),
    decreases ps.len(),
{
    if ps.len() > 0 && in_range(data, ps[0].slot) {
        law_binary_size_kept(slot_written(data, ps[0], n, new), ps.drop_first(), n, new);
    }
}

/// Patching a binary file changes nothing outside the strings that hold the
/// prefix.
pub proof fn law_binary_outside_kept(
    data: Seq<u8>,
    ps: Seq<PatchModel>,
    n: int,
    new: Seq<u8>,
    i: int,
)
    requires
        0 <= i < data.len(),
        forall|j: int| !within(ps, j, i),
    ensures
        slots_written(data, ps, n, new)[i] == data[i],
    decreases ps.len(),
{
    if ps.len() > 0 && in_range(data, ps[0].slot) {
        let rest = ps.drop_first();
        assert(!within(ps, 0, i));
        assert forall|j: int| !within(rest, j, i) by {
            assert(!within(ps, j + 1, i));
            if 0 <= j < rest.len() {
                assert(rest[j] == ps[j + 1]);
            }
        }
        law_binary_outside_kept(slot_written(data, ps[0], n, new), rest, n, new, i);
    }
}

/// Files that the index does not name keep their content, and no file comes or
/// goes.
pub proof fn law_other_files_kept(
    files: Map<Seq<char>, Seq<u8>>,
    index: Seq<EntryModel>,
    prev: Seq<u8>,
    new: Seq<u8>,
    n: int,
    path: Seq<char>,
)
    requires
        n <= index.len(),
    ensures
        patched_files(files, index, prev, new, n).dom() == files.dom(),
        (forall|j: int| 0 <= j < n ==> (#[trigger] index[j]).path != path) && files.contains_key(
            path,
        ) ==> patched_files(files, index, prev, new, n)[path] == files[path],
    decreases n,
{
    if n > 0 {
        law_other_files_kept(files, index, prev, new, n - 1, path);
        assert(patched_files(files, index, prev, new, n).dom() =~= files.dom());
        assert(index[n - 1].path == index[n - 1].path);
    }
}

/// A relocation that a binary slot forbids leaves the env as it was.
pub proof fn law_refused_relocation_changes_nothing(
    before: TreeModel,
    index: Seq<EntryModel>,
    prev: Seq<char>,
    new: Seq<char>,
    after: TreeModel,
    r: Result<(), RelocateError>,
)
    requires
        relocates(before, index, prev, new, after, r),
        prev != new,
        !valid_up_to(
            before.files,
            index,
            encode_utf8(prev),
            encode_utf8(new),
            index.len() as int,
        ),
    ensures
        r matches Err(RelocateError::Validate { .. }),
        after == before,
{
}

/// A second relocation to the same place changes nothing, provided that the
/// last-prefix file reads back as what was written to it.
pub proof fn law_apply_again_changes_nothing(
    before: TreeModel,
    index: Seq<EntryModel>,
    new: Seq<char>,
    mid: TreeModel,
    after: TreeModel,
    r: Result<(), RelocateError>,
)
    requires
        trimmed(new) == new,
        relocates(before, index, carried_prefix(before.last_prefix_file), new, mid, Ok(())),
        relocates(mid, index, carried_prefix(mid.last_prefix_file), new, after, r),
    ensures
        r is Ok,
        after == mid,
{
}

/// The pieces of `s` from `i` on between the occurrences of `pat`; `head` is
/// what the first piece starts with.
pub open spec fn pieces_from(s: Seq<u8>, pat: Seq<u8>, i: int, head: Seq<u8>) -> Seq<Seq<u8>>
    decreases s.len() - i,
{
    if i < 0 || i >= s.len() {
        seq![head]
    } else if pat.len() > 0 && occurs_at(s, pat, i) {
        seq![head] + pieces_from(s, pat, i + pat.len(), Seq::empty())
    } else {
        pieces_from(s, pat, i + 1, head.push(s[i]))
    }
}

/// The pieces of `s` between the occurrences of `pat`.
pub open spec fn pieces(s: Seq<u8>, pat: Seq<u8>) -> Seq<Seq<u8>> {
    pieces_from(s, pat, 0, Seq::empty())
}

/// The pieces with `glue` between each two.
pub open spec fn glued(parts: Seq<Seq<u8>>, glue: Seq<u8>) -> Seq<u8>
    decreases parts.len(),
{
    if parts.len() == 0 {
        Seq::empty()
    } else if parts.len() == 1 {
        parts[0]
    } else {
        parts[0] + glue + glued(parts.drop_first(), glue)
    }
}

proof fn lemma_replaced_glues(s: Seq<u8>, pat: Seq<u8>, new: Seq<u8>, i: int, head: Seq<u8>)
    requires
        0 <= i,
    ensures
        pieces_from(s, pat, i, head).len() > 0,
        glued(pieces_from(s, pat, i, head), new) == head + replaced_from(s, pat, new, i),
    decreases s.len() - i,
{
    let all = pieces_from(s, pat, i, head);
    if i >= s.len() {
        assert(head + Seq::<u8>::empty() =~= head);
    } else if pat.len() > 0 && occurs_at(s, pat, i) {
        let rest = pieces_from(s, pat, i + pat.len(), Seq::empty());
        lemma_replaced_glues(s, pat, new, i + pat.len(), Seq::empty());
        assert(all.drop_first() =~= rest);
        let t = replaced_from(s, pat, new, i + pat.len());
        assert(Seq::<u8>::empty() + t =~= t);
        assert(head + new + t =~= head + (new + t));
    } else {
        lemma_replaced_glues(s, pat, new, i + 1, head.push(s[i]));
        let t = replaced_from(s, pat, new, i + 1);
        assert(head.push(s[i]) + t =~= head + (seq![s[i]] + t));
    }
}

/// Rewriting a text puts the new prefix between the pieces that the old one
/// separated.
pub proof fn law_text_rewrite_keeps_pieces(s: Seq<u8>, pat: Seq<u8>, new: Seq<u8>)
    ensures
        replaced(s, pat, new) == glued(pieces(s, pat), new),
{
    lemma_replaced_glues(s, pat, new, 0, Seq::empty());
    assert(Seq::<u8>::empty() + replaced(s, pat, new) =~= replaced(s, pat, new));
}

proof fn lemma_replaced_by_itself(s: Seq<u8>, pat: Seq<u8>, i: int)
    requires
        0 <= i <= s.len(),
    ensures
        replaced_from(s, pat, pat, i) == s.skip(i),
    decreases s.len() - i,
{
    if i < s.len() {
        if pat.len() > 0 && occurs_at(s, pat, i) {
            lemma_replaced_by_itself(s, pat, i + pat.len());
            assert(s.skip(i) =~= s.subrange(i, i + pat.len()) + s.skip(i + pat.len()));
        } else {
            lemma_replaced_by_itself(s, pat, i + 1);
            assert(s.skip(i) =~= seq![s[i]] + s.skip(i + 1));
        }
    } else {
        assert(s.skip(i) =~= Seq::<u8>::empty());
    }
}

/// A text moved to `a` and then to `b` is the text moved to `b` at once, and
/// moved back it is the text itself, provided that `a` stands in the moved
/// text only where it was put.
pub proof fn law_text_moves_compose(s: Seq<u8>, prev: Seq<u8>, a: Seq<u8>, b: Seq<u8>)
    requires
        pieces(replaced(s, prev, a), a) == pieces(s, prev),
    ensures
        replaced(replaced(s, prev, a), a, b) == replaced(s, prev, b),
        replaced(replaced(s, prev, a), a, prev) == s,
{
    law_text_rewrite_keeps_pieces(replaced(s, prev, a), a, b);
    law_text_rewrite_keeps_pieces(s, prev, b);
    law_text_rewrite_keeps_pieces(replaced(s, prev, a), a, prev);
    law_text_rewrite_keeps_pieces(s, prev, prev);
    lemma_replaced_by_itself(s, prev, 0);
    assert(s.skip(0) =~= s);
}

proof fn lemma_stripped(s: Seq<u8>)
    ensures
        stripped(s).len() <= s.len(),
        stripped(s) == s.take(stripped(s).len() as int),
        stripped(s).len() > 0 ==> stripped(s).last() != 0u8,
        forall|i: int| stripped(s).len() <= i < s.len() ==> s[i] == 0u8,
    decreases s.len(),
{
    if s.len() > 0 && s.last() == 0u8 {
        let t = s.drop_last();
        lemma_stripped(t);
        assert(t.take(stripped(s).len() as int) =~= s.take(stripped(s).len() as int));
        assert forall|i: int| stripped(s).len() <= i < s.len() implies s[i] == 0u8 by {
            if i < t.len() {
                assert(t[i] == 0u8);
            }
        }
    } else {
        assert(s.take(s.len() as int) =~= s);
    }
}

proof fn lemma_stripped_is(s: Seq<u8>, n: int)
    requires
        0 <= n <= s.len(),
        n > 0 ==> s[n - 1] != 0u8,
        forall|i: int| n <= i < s.len() ==> s[i] == 0u8,
    ensures
        stripped(s) == s.take(n),
    decreases s.len(),
{
    if s.len() > n {
        lemma_stripped_is(s.drop_last(), n);
        assert(s.drop_last().take(n) =~= s.take(n));
    } else {
        assert(s.take(n) =~= s);
    }
}

/// What a string holds that was moved to `a`, after `head`: `a` at each
/// reference, and the same between and after them.
proof fn lemma_moved(
    r: Seq<u8>,
    refs: Seq<int>,
    n: int,
    a: Seq<u8>,
    b: Seq<u8>,
    cur: int,
    shift: int,
    head: Seq<u8>,
    m: Seq<u8>,
)
    requires
        0 <= cur,
        0 <= n,
        placed(refs, r.len() as int, n, cur, shift),
        (head + rewritten(r, refs, n, a, cur, shift)).len() <= m.len(),
        m == resized(head + rewritten(r, refs, n, a, cur, shift), m.len()),
    ensures
        stands(m, refs, a, head.len() as int, shift + head.len() - cur),
        rewritten(m, refs, a.len() as int, b, head.len() as int, shift + head.len() - cur)
            == rewritten(r, refs, n, b, cur, shift),
    decreases refs.len(),
{
    let w = rewritten(r, refs, n, a, cur, shift);
    if refs.len() == 0 {
        let t = r.subrange(cur, r.len() as int);
        lemma_stripped(t);
        let u = m.subrange(head.len() as int, m.len() as int);
        assert forall|i: int| 0 <= i < w.len() implies u[i] == w[i] by {}
        lemma_stripped_is(u, w.len() as int);
        assert(u.take(w.len() as int) =~= w);
    } else {
        let at = refs[0] + shift;
        let gap = r.subrange(cur, at);
        let rest = rewritten(r, refs.drop_first(), n, a, at + n, shift + n - SENTINEL_LEN);
        let next = head + gap + a;
        assert(head + (gap + a + rest) =~= next + rest);
        lemma_moved(r, refs.drop_first(), n, a, b, at + n, shift + n - SENTINEL_LEN, next, m);
        let here: int = (head.len() + gap.len()) as int;
        assert(m.subrange(here, here + a.len()) =~= a);
        assert(m.subrange(head.len() as int, here) =~= gap);
    }
}

/// A string moved to `a` holds `a` at its references, so that a further move to
/// `b` gives what a move to `b` at once would have given.
pub proof fn law_string_moves_compose(
    r: Seq<u8>,
    refs: Seq<int>,
    prev: Seq<u8>,
    a: Seq<u8>,
    b: Seq<u8>,
)
    requires
        stands(r, refs, prev, 0, 0),
        rewritten(r, refs, prev.len() as int, a, 0, 0).len() <= r.len(),
    ensures
        patched_region(r, refs, prev.len() as int, a).len() == r.len(),
        stands(patched_region(r, refs, prev.len() as int, a), refs, a, 0, 0),
        rewritten(patched_region(r, refs, prev.len() as int, a), refs, a.len() as int, b, 0, 0)
            == rewritten(r, refs, prev.len() as int, b, 0, 0),
{
    let n = prev.len() as int;
    let m = patched_region(r, refs, n, a);
    let w = rewritten(r, refs, n, a, 0, 0);
    lemma_stands_placed(r, refs, prev, 0, 0);
    assert(Seq::<u8>::empty() + w =~= w);
    lemma_moved(r, refs, n, a, b, 0, 0, Seq::empty(), m);
}

/// What patching disjoint strings makes of a file, byte by byte.
proof fn lemma_slots_written(data: Seq<u8>, ps: Seq<PatchModel>, n: int, new: Seq<u8>)
    requires
        disjoint(ps),
        forall|j: int| 0 <= j < ps.len() ==> in_range(data, (#[trigger] ps[j]).slot),
    ensures
        slots_written(data, ps, n, new).len() == data.len(),
        forall|j: int, i: int| #[trigger]
            within(ps, j, i) ==> slots_written(data, ps, n, new)[i] == patched_region(
                region(data, ps[j].slot),
                ps[j].refs,
                n,
                new,
            )[i - ps[j].slot.offset],
        forall|i: int|
            0 <= i < data.len() && (forall|j: int| !within(ps, j, i))
                ==> #[trigger] slots_written(data, ps, n, new)[i] == data[i],
    decreases ps.len(),
{
    law_binary_size_kept(data, ps, n, new);
    assert forall|i: int|
        0 <= i < data.len() && (forall|j: int|
            !within(ps, j, i)) implies #[trigger] slots_written(data, ps, n, new)[i]
        == data[i] by {
        law_binary_outside_kept(data, ps, n, new, i);
    }
    if ps.len() > 0 {
        let d = slot_written(data, ps[0], n, new);
        let rest = ps.drop_first();
        let all = slots_written(data, ps, n, new);
        assert forall|j: int| 0 <= j < rest.len() implies in_range(d, (#[trigger] rest[j]).slot) by {
            assert(rest[j] == ps[j + 1]);
        }
        assert forall|i: int, j: int| 0 <= i < j < rest.len() implies (
        #[trigger] rest[i]).slot.offset + rest[i].slot.slot_len <= (#[trigger] rest[j]).slot.offset by {
            assert(rest[i] == ps[i + 1] && rest[j] == ps[j + 1]);
        }
        lemma_slots_written(d, rest, n, new);
        assert forall|j: int, i: int| #[trigger] within(ps, j, i) implies all[i]
            == patched_region(region(data, ps[j].slot), ps[j].refs, n, new)[i - ps[j].slot.offset] by {
            if j == 0 {
                assert forall|k: int| !within(rest, k, i) by {
                    if 0 <= k < rest.len() {
                        assert(rest[k] == ps[k + 1]);
                        assert(ps[0].slot.offset + ps[0].slot.slot_len <= ps[k + 1].slot.offset);
                    }
                }
                law_binary_outside_kept(d, rest, n, new, i);
            } else {
                assert(rest[j - 1] == ps[j]);
                assert(within(rest, j - 1, i));
                assert(ps[0].slot.offset + ps[0].slot.slot_len <= ps[j].slot.offset);
                assert(region(d, ps[j].slot) =~= region(data, ps[j].slot));
            }
        }
    }
}

/// A binary file whose disjoint strings take both `a` and `b`, moved to `a`, can
/// still be moved to `b`, and is then the file moved to `b` at once.
pub proof fn law_binary_moves_compose(
    data: Seq<u8>,
    ps: Seq<PatchModel>,
    prev: Seq<u8>,
    a: Seq<u8>,
    b: Seq<u8>,
)
    requires
        disjoint(ps),
        first_problem(data, ps, prev, a, 0) is None,
        first_problem(data, ps, prev, b, 0) is None,
    ensures
        first_problem(slots_written(data, ps, prev.len() as int, a), ps, a, b, 0) is None,
        slots_written(
            slots_written(data, ps, prev.len() as int, a),
            ps,
            a.len() as int,
            b,
        ) == slots_written(data, ps, prev.len() as int, b),
{
    let n = prev.len() as int;
    let m = slots_written(data, ps, n, a);
    let w = slots_written(m, ps, a.len() as int, b);
    let v = slots_written(data, ps, n, b);
    lemma_no_problems(data, ps, prev, a, 0);
    assert forall|j: int| 0 <= j < ps.len() implies slot_problem(
        data,
        #[trigger] ps[j],
        prev,
        b,
    ) is None by {
        lemma_no_problems(data, ps, prev, b, 0);
    }
    lemma_slots_written(data, ps, n, a);
    lemma_slots_written(data, ps, n, b);
    assert forall|j: int| 0 <= j < ps.len() implies in_range(m, (#[trigger] ps[j]).slot)
        && slot_problem(m, ps[j], a, b) is None && region(m, ps[j].slot) == patched_region(
        region(data, ps[j].slot),
        ps[j].refs,
        n,
        a,
    ) by {
        let r = region(data, ps[j].slot);
        assert(slot_problem(data, ps[j], prev, a) is None);
        assert(slot_problem(data, ps[j], prev, b) is None);
        assert forall|k: int| 0 <= k < r.len() implies region(m, ps[j].slot)[k] == patched_region(
            r,
            ps[j].refs,
            n,
            a,
        )[k] by {
            assert(within(ps, j, ps[j].slot.offset + k));
        }
        assert(region(m, ps[j].slot) =~= patched_region(r, ps[j].refs, n, a));
        law_string_moves_compose(r, ps[j].refs, prev, a, b);
    }
    lemma_no_problem(m, ps, a, b, 0);
    lemma_slots_written(m, ps, a.len() as int, b);
    assert forall|i: int| 0 <= i < data.len() implies w[i] == v[i] by {
        if exists|j: int| within(ps, j, i) {
            let j = choose|j: int| within(ps, j, i);
            let r = region(data, ps[j].slot);
            assert(slot_problem(data, ps[j], prev, a) is None);
            law_string_moves_compose(r, ps[j].refs, prev, a, b);
        } else {
            assert(w[i] == m[i]);
            assert(m[i] == data[i]);
            assert(v[i] == data[i]);
        }
    }
    assert(w =~= v);
}

proof fn lemma_no_problem(
    data: Seq<u8>,
    ps: Seq<PatchModel>,
    prev: Seq<u8>,
    new: Seq<u8>,
    i: int,
)
    requires
        0 <= i,
        forall|j: int|
            i <= j < ps.len() ==> slot_problem(data, #[trigger] ps[j], prev, new) is None,
    ensures
        first_problem(data, ps, prev, new, i) is None,
    decreases ps.len() - i,
{
    if i < ps.len() {
        lemma_no_problem(data, ps, prev, new, i + 1);
    }
}

/// No two entries of the index name the same file.
pub open spec fn one_each(index: Seq<EntryModel>) -> bool {
    forall|i: int, j: int|
        0 <= i < j < index.len() ==> (#[trigger] index[i]).path != (#[trigger] index[j]).path
}

/// What the entries before `n` make of the file of entry `j`.
proof fn lemma_file_patched(
    files: Map<Seq<char>, Seq<u8>>,
    index: Seq<EntryModel>,
    prev: Seq<u8>,
    new: Seq<u8>,
    n: int,
    j: int,
)
    requires
        one_each(index),
        0 <= j < index.len(),
        n <= index.len(),
        files.contains_key(index[j].path),
    ensures
        patched_files(files, index, prev, new, n).contains_key(index[j].path),
        patched_files(files, index, prev, new, n)[index[j].path] == (if j < n {
            patched_data(files[index[j].path], index[j], prev, new)
        } else {
            files[index[j].path]
        }),
    decreases n,
{
    if n > 0 {
        lemma_file_patched(files, index, prev, new, n - 1, j);
        if j < n - 1 {
            assert(index[j].path != index[n - 1].path);
        } else if n - 1 < j {
            assert(index[n - 1].path != index[j].path);
        }
    }
}

/// The entries can be patched where each has its file and no binary one forbids
/// it.
proof fn lemma_all_patchable(
    files: Map<Seq<char>, Seq<u8>>,
    index: Seq<EntryModel>,
    prev: Seq<u8>,
    new: Seq<u8>,
)
    requires
        one_each(index),
        valid_up_to(files, index, prev, new, index.len() as int),
        forall|j: int| 0 <= j < index.len() ==> files.contains_key((#[trigger] index[j]).path),
    ensures
        patchable_up_to(files, index, prev, new, index.len() as int),
{
    assert forall|j: int| 0 <= j < index.len() implies patch_problem(
        patched_files(files, index, prev, new, j),
        #[trigger] index[j],
    ) is None by {
        lemma_file_patched(files, index, prev, new, j, j);
        assert(entry_problem(files, index[j], prev, new) is None);
        if index[j].kind == FileKind::Binary {
            lemma_no_problems(files[index[j].path], patches(index[j].slots), prev, new, 0);
            lemma_none_out_of_range(files[index[j].path], patches(index[j].slots), 0);
        }
    }
}

proof fn lemma_none_out_of_range(data: Seq<u8>, ps: Seq<PatchModel>, i: int)
    requires
        0 <= i,
        forall|j: int| i <= j < ps.len() ==> in_range(data, (#[trigger] ps[j]).slot),
    ensures
        first_out_of_range(data, ps, i) is None,
    decreases ps.len() - i,
{
    if i < ps.len() {
        assert(in_range(data, ps[i].slot));
        lemma_none_out_of_range(data, ps, i + 1);
    }
}

/// Patching entries that were patched before makes of each file what the two
/// patches make of it.
proof fn lemma_patched_twice(
    files: Map<Seq<char>, Seq<u8>>,
    index: Seq<EntryModel>,
    prev: Seq<u8>,
    a: Seq<u8>,
    b: Seq<u8>,
    path: Seq<char>,
)
    requires
        one_each(index),
        files.contains_key(path),
    ensures
        ({
            let len = index.len() as int;
            let mid = patched_files(files, index, prev, a, len);
            let end = patched_files(mid, index, a, b, len);
            &&& mid.dom() == files.dom()
            &&& end.dom() == files.dom()
            &&& if exists|j: int| 0 <= j < len && (#[trigger] index[j]).path == path {
                exists|j: int|
                    0 <= j < len && (#[trigger] index[j]).path == path && mid[path]
                        == patched_data(files[path], index[j], prev, a) && end[path]
                        == patched_data(mid[path], index[j], a, b)
            } else {
                mid[path] == files[path] && end[path] == files[path]
            }
        }),
{
    let len = index.len() as int;
    let mid = patched_files(files, index, prev, a, len);
    law_other_files_kept(files, index, prev, a, len, path);
    law_other_files_kept(mid, index, a, b, len, path);
    if exists|j: int| 0 <= j < len && (#[trigger] index[j]).path == path {
        let j = choose|j: int| 0 <= j < len && (#[trigger] index[j]).path == path;
        lemma_file_patched(files, index, prev, a, len, j);
        lemma_file_patched(mid, index, a, b, len, j);
    }
}

/// The entry's file can be moved on from `a`: in a text `a` stands only where
/// it was put, and the strings of a binary file do not overlap.
pub open spec fn moves_on(data: Seq<u8>, e: EntryModel, prev: Seq<u8>, a: Seq<u8>) -> bool {
    match e.kind {
        FileKind::Text => pieces(replaced(data, prev, a), a) == pieces(data, prev),
        FileKind::Binary => disjoint(patches(e.slots)),
    }
}

/// An env that was moved to `a` can be moved to wherever it could have been
/// moved at once, and then holds what it would have held.
pub proof fn law_env_moves_compose(
    before: TreeModel,
    index: Seq<EntryModel>,
    prev: Seq<char>,
    a: Seq<char>,
    b: Seq<char>,
    mid: TreeModel,
    direct: TreeModel,
    after: TreeModel,
    r: Result<(), RelocateError>,
)
    requires
        one_each(index),
        forall|j: int|
            0 <= j < index.len() ==> moves_on(
                before.files[(#[trigger] index[j]).path],
                index[j],
                encode_utf8(prev),
                encode_utf8(a),
            ),
        prev != a,
        prev != b,
        a != b,
        relocates(before, index, prev, a, mid, Ok(())),
        relocates(before, index, prev, b, direct, Ok(())),
        relocates(mid, index, a, b, after, r),
    ensures
        r is Ok,
        after == direct,
{
    let (p, x, y) = (encode_utf8(prev), encode_utf8(a), encode_utf8(b));
    let len = index.len() as int;
    let files = before.files;
    assert forall|j: int| 0 <= j < len implies files.contains_key((#[trigger] index[j]).path) by {
        assert(patch_problem(patched_files(files, index, p, x, j), index[j]) is None);
        law_other_files_kept(files, index, p, x, j, index[j].path);
    }
    assert forall|j: int| 0 <= j < len implies entry_problem(
        mid.files,
        #[trigger] index[j],
        x,
        y,
    ) is None && mid.files.contains_key(index[j].path) by {
        lemma_file_patched(files, index, p, x, len, j);
        assert(entry_problem(files, index[j], p, x) is None);
        assert(entry_problem(files, index[j], p, y) is None);
        if index[j].kind == FileKind::Binary {
            law_binary_moves_compose(files[index[j].path], patches(index[j].slots), p, x, y);
        }
    }
    lemma_all_patchable(mid.files, index, x, y);
    assert(r is Ok);
    law_other_files_kept(files, index, p, x, len, Seq::empty());
    law_other_files_kept(files, index, p, y, len, Seq::empty());
    law_other_files_kept(mid.files, index, x, y, len, Seq::empty());
    assert forall|path: Seq<char>| files.contains_key(path) implies #[trigger] after.files[path]
        == direct.files[path] by {
        lemma_patched_twice(files, index, p, x, y, path);
        if exists|j: int| 0 <= j < len && (#[trigger] index[j]).path == path {
            let j = choose|j: int|
                0 <= j < len && (#[trigger] index[j]).path == path && mid.files[path]
                    == patched_data(files[path], index[j], p, x) && after.files[path]
                    == patched_data(mid.files[path], index[j], x, y);
            lemma_file_patched(files, index, p, y, len, j);
            assert(entry_problem(files, index[j], p, x) is None);
            assert(entry_problem(files, index[j], p, y) is None);
            match index[j].kind {
                FileKind::Text => law_text_moves_compose(files[path], p, x, y),
                FileKind::Binary => law_binary_moves_compose(
                    files[path],
                    patches(index[j].slots),
                    p,
                    x,
                    y,
                ),
            }
        } else {
            law_other_files_kept(files, index, p, y, len, path);
        }
    }
    assert(after.files =~= direct.files);
}

/// A string that holds `prev` is not changed by putting `prev` in it.
proof fn lemma_written_back(r: Seq<u8>, refs: Seq<int>, prev: Seq<u8>, cur: int, shift: int)
    requires
        0 <= cur,
        stands(r, refs, prev, cur, shift),
    ensures
        ({
            let w = rewritten(r, refs, prev.len() as int, prev, cur, shift);
            &&& cur <= r.len()
            &&& w.len() <= r.len() - cur
            &&& resized(w, (r.len() - cur) as nat) == r.subrange(cur, r.len() as int)
        }),
    decreases refs.len(),
{
    let n = prev.len() as int;
    let w = rewritten(r, refs, n, prev, cur, shift);
    let all = r.subrange(cur, r.len() as int);
    if refs.len() == 0 {
        lemma_stripped(all);
        assert(resized(w, all.len()) =~= all);
    } else {
        let at = refs[0] + shift;
        let rest = rewritten(r, refs.drop_first(), n, prev, at + n, shift + n - SENTINEL_LEN);
        lemma_written_back(r, refs.drop_first(), prev, at + n, shift + n - SENTINEL_LEN);
        let tail = resized(rest, (r.len() - at - n) as nat);
        assert forall|i: int| 0 <= i < all.len() implies resized(w, all.len())[i] == all[i] by {
            if i < at - cur {
            } else if i < at - cur + n {
                assert(r.subrange(at, at + n)[i - (at - cur)] == r[cur + i]);
            } else {
                assert(tail[i - (at - cur) - n] == r.subrange(at + n, r.len() as int)[i - (at
                    - cur) - n]);
            }
        }
        assert(resized(w, all.len()) =~= all);
    }
}

/// Strings that hold `prev` are not changed by putting `prev` in them.
proof fn lemma_slots_written_back(
    data: Seq<u8>,
    ps: Seq<PatchModel>,
    prev: Seq<u8>,
    new: Seq<u8>,
)
    requires
        disjoint(ps),
        first_problem(data, ps, prev, new, 0) is None,
    ensures
        first_problem(data, ps, prev, prev, 0) is None,
        slots_written(data, ps, prev.len() as int, prev) == data,
{
    let n = prev.len() as int;
    let w = slots_written(data, ps, n, prev);
    lemma_no_problems(data, ps, prev, new, 0);
    assert forall|j: int| 0 <= j < ps.len() implies slot_problem(
        data,
        #[trigger] ps[j],
        prev,
        prev,
    ) is None && in_range(data, ps[j].slot) && patched_region(
        region(data, ps[j].slot),
        ps[j].refs,
        n,
        prev,
    ) == region(data, ps[j].slot) by {
        let r = region(data, ps[j].slot);
        assert(slot_problem(data, ps[j], prev, new) is None);
        lemma_written_back(r, ps[j].refs, prev, 0, 0);
        assert(r.subrange(0, r.len() as int) =~= r);
    }
    lemma_no_problem(data, ps, prev, prev, 0);
    lemma_slots_written(data, ps, n, prev);
    assert forall|i: int| 0 <= i < data.len() implies w[i] == data[i] by {
        if exists|j: int| within(ps, j, i) {
            let j = choose|j: int| within(ps, j, i);
            assert(region(data, ps[j].slot)[i - ps[j].slot.offset] == data[i]);
        }
    }
    assert(w =~= data);
}

/// An env that was moved to `a` can be moved back, and then holds what it held.
pub proof fn law_env_moves_back(
    before: TreeModel,
    index: Seq<EntryModel>,
    prev: Seq<char>,
    a: Seq<char>,
    mid: TreeModel,
    after: TreeModel,
    r: Result<(), RelocateError>,
)
    requires
        one_each(index),
        forall|j: int|
            0 <= j < index.len() ==> moves_on(
                before.files[(#[trigger] index[j]).path],
                index[j],
                encode_utf8(prev),
                encode_utf8(a),
            ),
        prev != a,
        relocates(before, index, prev, a, mid, Ok(())),
        relocates(mid, index, a, prev, after, r),
    ensures
        r is Ok,
        after.files == before.files,
        after.last_prefix_file == Some(prev),
{
    let (p, x) = (encode_utf8(prev), encode_utf8(a));
    let len = index.len() as int;
    let files = before.files;
    assert forall|j: int| 0 <= j < len implies files.contains_key((#[trigger] index[j]).path) by {
        assert(patch_problem(patched_files(files, index, p, x, j), index[j]) is None);
        law_other_files_kept(files, index, p, x, j, index[j].path);
    }
    assert forall|j: int| 0 <= j < len implies entry_problem(
        mid.files,
        #[trigger] index[j],
        x,
        p,
    ) is None && mid.files.contains_key(index[j].path) by {
        lemma_file_patched(files, index, p, x, len, j);
        assert(entry_problem(files, index[j], p, x) is None);
        if index[j].kind == FileKind::Binary {
            lemma_slots_written_back(files[index[j].path], patches(index[j].slots), p, x);
            law_binary_moves_compose(files[index[j].path], patches(index[j].slots), p, x, p);
        }
    }
    lemma_all_patchable(mid.files, index, x, p);
    law_other_files_kept(files, index, p, x, len, Seq::empty());
    law_other_files_kept(mid.files, index, x, p, len, Seq::empty());
    assert forall|path: Seq<char>| files.contains_key(path) implies #[trigger] after.files[path]
        == files[path] by {
        lemma_patched_twice(files, index, p, x, p, path);
        if exists|j: int| 0 <= j < len && (#[trigger] index[j]).path == path {
            let j = choose|j: int|
                0 <= j < len && (#[trigger] index[j]).path == path && mid.files[path]
                    == patched_data(files[path], index[j], p, x) && after.files[path]
                    == patched_data(mid.files[path], index[j], x, p);
            assert(entry_problem(files, index[j], p, x) is None);
            match index[j].kind {
                FileKind::Text => law_text_moves_compose(files[path], p, x, p),
                FileKind::Binary => {
                    lemma_slots_written_back(files[path], patches(index[j].slots), p, x);
                    law_binary_moves_compose(files[path], patches(index[j].slots), p, x, p);
                },
            }
        }
    }
    assert(after.files =~= files);
}

/// A string that a scan found in `data`: at each of its references the sentinel
/// stands, one after the other up to its end, and it holds no NUL.
pub open spec fn fresh(data: Seq<u8>, p: PatchModel) -> bool {
    &&& reaches_nul(data, p.slot.offset as int, p.slot.slot_len as int)
    &&& p.slot.offset < data.len()
    &&& p.refs.len() > 0
    &&& p.refs[0] == 0
    &&& forall|k: int|
        0 <= k < p.refs.len() ==> (#[trigger] p.refs[k]) + SENTINEL_LEN <= p.slot.slot_len
            && occurs_at(data, sentinel(), p.slot.offset + p.refs[k])
    &&& forall|j: int, k: int|
        0 <= j < k < p.refs.len() ==> #[trigger] p.refs[j] + SENTINEL_LEN <= #[trigger] p.refs[k]
}

/// The sentinel does not reach over the end of a string that it starts in.
proof fn lemma_sentinel_within(data: Seq<u8>, start: int, n: int, at: int)
    requires
        0 <= start <= at < start + n,
        start < data.len(),
        reaches_nul(data, start, n),
        occurs_at(data, sentinel(), at),
    ensures
        at + SENTINEL_LEN <= start + n,
{
    lemma_sentinel();
    if at + SENTINEL_LEN > start + n {
        assert(start + n < data.len());
        assert(data.subrange(at, at + 18)[start + n - at] == sentinel()[start + n - at]);
    }
}

proof fn lemma_fresh(data: Seq<u8>, slots: Seq<BinarySlot>, i: int)
    requires
        slots_of(data, slots),
        0 <= i <= slots.len(),
    ensures
        disjoint(patches(slots.take(i))),
        forall|j: int| 0 <= j < patches(slots.take(i)).len() ==> fresh(
            data,
            #[trigger] patches(slots.take(i))[j],
        ),
        i > 0 ==> patches(slots.take(i)).len() > 0 && patches(slots.take(i)).last().slot.offset
            + patches(slots.take(i)).last().refs.last() == slots[i - 1].offset,
    decreases i,
{
    if i > 0 {
        let h = hits(data, sentinel());
        lemma_sentinel();
        lemma_hits(data, sentinel(), 0);
        lemma_fresh(data, slots, i - 1);
        let done = patches(slots.take(i - 1));
        let s = slots[i - 1];
        assert(slots.take(i).drop_last() =~= slots.take(i - 1));
        assert(slots.take(i).last() == s);
        assert(s.offset == h[i - 1]);
        assert(occurs_at(data, sentinel(), h[i - 1]));
        assert(reaches_nul(data, h[i - 1], s.slot_len as int));
        let now = patches(slots.take(i));
        if i > 1 {
            assert(slots[i - 2].offset == h[i - 2]);
            assert(h[i - 2] + 18 <= h[i - 1]);
            assert(fresh(data, done.last()));
        }
        if done.len() > 0 && joins(done.last(), s) {
            let p = done.last();
            let d = s.offset - p.slot.offset;
            let q = now.last();
            lemma_sentinel_within(
                data,
                p.slot.offset as int,
                p.slot.slot_len as int,
                s.offset as int,
            );
            assert(q.refs == p.refs.push(d));
            assert forall|j: int, k: int| 0 <= j < k < q.refs.len() implies #[trigger] q.refs[j]
                + SENTINEL_LEN <= #[trigger] q.refs[k] by {
                if k == q.refs.len() - 1 {
                    if j < p.refs.len() - 1 {
                        assert(p.refs[j] + SENTINEL_LEN <= p.refs[p.refs.len() - 1]);
                    }
                }
            }
            assert(fresh(data, q));
            assert forall|j: int| 0 <= j < now.len() implies fresh(data, #[trigger] now[j]) by {
                if j < now.len() - 1 {
                    assert(now[j] == done[j]);
                }
            }
            assert forall|a: int, b: int| 0 <= a < b < now.len() implies (
            #[trigger] now[a]).slot.offset + now[a].slot.slot_len <= (
            #[trigger] now[b]).slot.offset by {
                assert(now[a] == done[a]);
                assert(done[b].slot == now[b].slot);
            }
        } else {
            let q = now.last();
            if s.slot_len < 18 {
                assert(data.subrange(h[i - 1], h[i - 1] + 18)[s.slot_len as int]
                    == sentinel()[s.slot_len as int]);
            }
            assert(fresh(data, q));
            assert forall|j: int| 0 <= j < now.len() implies fresh(data, #[trigger] now[j]) by {
                if j < now.len() - 1 {
                    assert(now[j] == done[j]);
                }
            }
            assert forall|a: int, b: int| 0 <= a < b < now.len() implies (
            #[trigger] now[a]).slot.offset + now[a].slot.slot_len <= (
            #[trigger] now[b]).slot.offset by {
                assert(now[a] == done[a]);
                if b < now.len() - 1 {
                    assert(now[b] == done[b]);
                } else if a < done.len() - 1 {
                    assert(done[a].slot.offset + done[a].slot.slot_len <= done[done.len()
                        - 1].slot.offset);
                }
            }
        }
    }
}

/// The strings of a file that was just scanned do not overlap, whatever number
/// of references each holds.
pub proof fn law_scanned_strings_are_apart(data: Seq<u8>, slots: Seq<BinarySlot>)
    requires
        slots_of(data, slots),
    ensures
        disjoint(patches(slots)),
        forall|j: int| 0 <= j < patches(slots).len() ==> fresh(data, #[trigger] patches(slots)[j]),
        slots.len() > 0 ==> patches(slots).len() > 0,
{
    lemma_fresh(data, slots, slots.len() as int);
    assert(slots.take(slots.len() as int) =~= slots);
}

/// What a fresh string holds, from `cur` on.
proof fn lemma_fresh_length(r: Seq<u8>, refs: Seq<int>, new: Seq<u8>, cur: int)
    requires
        0 <= cur <= r.len(),
        forall|k: int| 0 <= k < r.len() ==> #[trigger] r[k] != 0u8,
        forall|k: int|
            0 <= k < refs.len() ==> cur <= (#[trigger] refs[k]) && occurs_at(
                r,
                sentinel(),
                refs[k],
            ),
        forall|j: int, k: int|
            0 <= j < k < refs.len() ==> #[trigger] refs[j] + SENTINEL_LEN <= #[trigger] refs[k],
    ensures
        stands(r, refs, sentinel(), cur, 0),
        new.len() <= SENTINEL_LEN ==> rewritten(r, refs, SENTINEL_LEN as int, new, cur, 0).len()
            <= r.len() - cur,
        new.len() > SENTINEL_LEN ==> rewritten(r, refs, SENTINEL_LEN as int, new, cur, 0).len()
            >= r.len() - cur + (if refs.len() > 0 {
            1int
        } else {
            0
        }),
    decreases refs.len(),
{
    lemma_sentinel();
    if refs.len() == 0 {
        let t = r.subrange(cur, r.len() as int);
        if t.len() > 0 {
            assert(t.last() == r[r.len() - 1]);
        }
        assert(stripped(t) == t);
    } else {
        let rest = refs.drop_first();
        assert forall|k: int| 0 <= k < rest.len() implies refs[0] + SENTINEL_LEN <= (
        #[trigger] rest[k]) && occurs_at(r, sentinel(), rest[k]) by {
            assert(rest[k] == refs[k + 1]);
        }
        assert forall|j: int, k: int| 0 <= j < k < rest.len() implies #[trigger] rest[j]
            + SENTINEL_LEN <= #[trigger] rest[k] by {
            assert(rest[j] == refs[j + 1] && rest[k] == refs[k + 1]);
        }
        assert(occurs_at(r, sentinel(), refs[0]));
        lemma_fresh_length(r, rest, new, refs[0] + SENTINEL_LEN);
    }
}

/// A binary file that was just scanned takes every prefix that is no longer
/// than the sentinel, and no other.
pub proof fn law_fresh_scan_takes_short_prefixes(
    e: EntryModel,
    components: Seq<Seq<char>>,
    data: Seq<u8>,
    new: Seq<u8>,
)
    requires
        is_indexed(components, data),
        looks_binary(data),
        describes(e, components, data),
    ensures
        first_problem(data, patches(e.slots), sentinel(), new, 0) is None <==> new.len()
            <= sentinel().len(),
{
    let h = hits(data, sentinel());
    let ps = patches(e.slots);
    lemma_sentinel();
    lemma_hits(data, sentinel(), 0);
    law_scanned_strings_are_apart(data, e.slots);
    assert forall|j: int| 0 <= j < ps.len() implies (slot_problem(
        data,
        #[trigger] ps[j],
        sentinel(),
        new,
    ) is None <==> new.len() <= 18) by {
        let p = ps[j];
        let r = region(data, p.slot);
        assert(fresh(data, p));
        assert(r.len() == p.slot.slot_len);
        assert forall|k: int| 0 <= k < p.refs.len() implies 0 <= (#[trigger] p.refs[k])
            && occurs_at(r, sentinel(), p.refs[k]) by {
            if k > 0 {
                assert(p.refs[0] + SENTINEL_LEN <= p.refs[k]);
            }
            assert(occurs_at(data, sentinel(), p.slot.offset + p.refs[k]));
            assert(r.subrange(p.refs[k], p.refs[k] + 18) =~= data.subrange(
                p.slot.offset + p.refs[k],
                p.slot.offset + p.refs[k] + 18,
            ));
        }
        lemma_fresh_length(r, p.refs, new, 0);
    }
    let j = choose|j: int| #[trigger] occurs_at(data, sentinel(), j);
    assert(h.len() > 0);
    if new.len() <= 18 {
        lemma_no_problem(data, ps, sentinel(), new, 0);
    } else {
        assert(slot_problem(data, ps[0], sentinel(), new) is Some);
    }
}

// ---- what a scan finds ----

/// The sentinel stands in `data` at `j`.
pub open spec fn sentinel_at(data: Seq<u8>, j: int) -> bool {
    0 <= j && j + 18 <= data.len() && data.subrange(j, j + 18) == encode_utf8(
        "__TOOLBOX_PREFIX__"@,
    )
}

/// A file that could be read, is none of the env's metadata, has no more than
/// 256 MiB and holds the sentinel somewhere.
pub open spec fn is_carrier(f: TreeFile) -> bool {
    &&& f.data is Some
    &&& f.data->0@.len() <= 268435456
    &&& !(f.components@.len() > 0 && f.components@[0]@ == ".toolbox"@)
    &&& exists|j: int| sentinel_at(f.data->0@, j)
}

proof fn lemma_carrier(f: TreeFile)
    ensures
        is_carrier(f) <==> file_indexed(f),
{
    if f.data is Some {
        let data = f.data->0@;
        lemma_holds_sentinel(data);
        lemma_sentinel();
        assert(texts(f.components@).len() == f.components@.len());
        if f.components@.len() > 0 {
            assert(texts(f.components@)[0] == f.components@[0]@);
        }
        if exists|j: int| sentinel_at(data, j) {
            let j = choose|j: int| sentinel_at(data, j);
            assert(occurs_at(data, sentinel(), j));
        }
        if occurs_in(data, sentinel()) {
            let j = choose|j: int| #[trigger] occurs_at(data, sentinel(), j);
            assert(sentinel_at(data, j));
        }
    }
}

/// A file that holds the sentinel anywhere, however far in, has an entry in the
/// index of a scan.
pub proof fn law_scan_misses_no_file(files: Seq<TreeFile>, index: Seq<EntryModel>, k: int, j: int)
    requires
        is_scan(files, index),
        0 <= k < files.len(),
        files[k].data is Some,
        files[k].data->0@.len() <= 268435456,
        !(files[k].components@.len() > 0 && files[k].components@[0]@ == ".toolbox"@),
        0 <= j,
        j + 18 <= files[k].data->0@.len(),
        files[k].data->0@.subrange(j, j + 18) == encode_utf8("__TOOLBOX_PREFIX__"@),
    ensures
        exists|i: int|
            0 <= i < index.len() && (#[trigger] index[i]).path == index_path(
                texts(files[k].components@),
            ) && describes(index[i], texts(files[k].components@), files[k].data->0@),
        names(index, index_path(texts(files[k].components@))),
{
    assert(sentinel_at(files[k].data->0@, j));
    assert(is_carrier(files[k]));
    let at = lemma_scan_positions(files, index);
    let i = choose|i: int| 0 <= i < at.len() && at[i] == k;
    assert(describes(index[i], texts(files[at[i]].components@), files[at[i]].data->0@));
    assert(index[i].path == index_path(texts(files[k].components@)));
}

/// `at` tells of each entry of the index which file it is of: the files that hold
/// the sentinel, all of them, in the order of the walk.
pub open spec fn accounts_for(files: Seq<TreeFile>, index: Seq<EntryModel>, at: Seq<int>) -> bool {
    &&& at.len() == index.len()
    &&& forall|i: int|
        0 <= i < at.len() ==> 0 <= #[trigger] at[i] < files.len() && is_carrier(files[at[i]])
            && describes(index[i], texts(files[at[i]].components@), files[at[i]].data->0@)
    &&& forall|i: int, j: int| 0 <= i < j < at.len() ==> #[trigger] at[i] < #[trigger] at[j]
    &&& forall|k: int| 0 <= k < files.len() && is_carrier(#[trigger] files[k]) ==> at.contains(k)
}

proof fn lemma_scan_positions(files: Seq<TreeFile>, index: Seq<EntryModel>) -> (at: Seq<int>)
    requires
        is_scan(files, index),
    ensures
        accounts_for(files, index, at),
    decreases files.len(),
{
    if files.len() == 0 {
        Seq::empty()
    } else {
        let rest = files.drop_last();
        let last = files.len() - 1;
        lemma_carrier(files[last]);
        if file_indexed(files.last()) {
            let before = lemma_scan_positions(rest, index.drop_last());
            let at = before.push(last);
            assert forall|i: int| 0 <= i < at.len() implies 0 <= #[trigger] at[i] < files.len()
                && is_carrier(files[at[i]]) && describes(
                index[i],
                texts(files[at[i]].components@),
                files[at[i]].data->0@,
            ) by {
                if i < before.len() {
                    assert(at[i] == before[i]);
                    assert(rest[before[i]] == files[at[i]]);
                    assert(index.drop_last()[i] == index[i]);
                } else {
                    assert(index[i] == index.last());
                }
            }
            assert forall|i: int, j: int| 0 <= i < j < at.len() implies #[trigger] at[i]
                < #[trigger] at[j] by {
                assert(at[i] == before[i]);
                if j < before.len() {
                    assert(at[j] == before[j]);
                }
            }
            assert forall|k: int| 0 <= k < files.len() && is_carrier(
                #[trigger] files[k],
            ) implies at.contains(k) by {
                if k < last {
                    assert(rest[k] == files[k]);
                    let i = choose|i: int| 0 <= i < before.len() && before[i] == k;
                    assert(at[i] == k);
                } else {
                    assert(at[before.len() as int] == k);
                }
            }
            at
        } else {
            let at = lemma_scan_positions(rest, index);
            assert forall|i: int| 0 <= i < at.len() implies 0 <= #[trigger] at[i] < files.len()
                && is_carrier(files[at[i]]) && describes(
                index[i],
                texts(files[at[i]].components@),
                files[at[i]].data->0@,
            ) by {
                assert(rest[at[i]] == files[at[i]]);
            }
            assert forall|k: int| 0 <= k < files.len() && is_carrier(
                #[trigger] files[k],
            ) implies at.contains(k) by {
                assert(rest[k] == files[k]);
            }
            at
        }
    }
}

/// The entries of a scan are those of the files that hold the sentinel, one for
/// each, in the order of the walk.
pub proof fn law_scan_accounts_for_every_file(files: Seq<TreeFile>, index: Seq<EntryModel>)
    requires
        is_scan(files, index),
    ensures
        exists|at: Seq<int>| accounts_for(files, index, at),
{
    let at = lemma_scan_positions(files, index);
}

/// The entry of a file: its path, its kind by whether a NUL stands among its
/// first bytes, and for a binary file a slot for each place of the sentinel, which
/// reaches to the next NUL. A text file has no slots.
pub proof fn law_entry_describes_the_file(
    e: EntryModel,
    components: Seq<Seq<char>>,
    data: Seq<u8>,
    j: int,
)
    requires
        describes(e, components, data),
    ensures
        e.path == index_path(components),
        e.kind == FileKind::Binary <==> exists|z: int|
            0 <= z < data.len() && z < 8192 && #[trigger] data[z] == 0u8,
        e.kind == FileKind::Text ==> e.slots.len() == 0,
        e.kind == FileKind::Binary && sentinel_at(data, j) ==> exists|i: int|
            0 <= i < e.slots.len() && (#[trigger] e.slots[i]).offset <= j < e.slots[i].offset + 18,
        forall|i: int|
            0 <= i < e.slots.len() ==> sentinel_at(data, (#[trigger] e.slots[i]).offset as int),
        forall|i: int|
            0 <= i < e.slots.len() ==> (#[trigger] e.slots[i]).offset + e.slots[i].slot_len
                <= data.len() && (e.slots[i].offset + e.slots[i].slot_len < data.len()
                ==> data[e.slots[i].offset + e.slots[i].slot_len] == 0u8),
        forall|i: int, z: int|
            0 <= i < e.slots.len() && (#[trigger] e.slots[i]).offset <= z < e.slots[i].offset
                + e.slots[i].slot_len ==> #[trigger] data[z] != 0u8,
        forall|a: int, b: int|
            0 <= a < b < e.slots.len() ==> (#[trigger] e.slots[a]).offset + 18 <= (
            #[trigger] e.slots[b]).offset,
{
    lemma_sentinel();
    let h = hits(data, sentinel());
    if e.kind == FileKind::Binary {
        lemma_hits(data, sentinel(), 0);
        assert forall|i: int| 0 <= i < e.slots.len() implies sentinel_at(
            data,
            (#[trigger] e.slots[i]).offset as int,
        ) by {
            assert(occurs_at(data, sentinel(), h[i]));
        }
        if sentinel_at(data, j) {
            law_no_occurrence_is_missed(data, sentinel(), j);
            let a = choose|a: int| 0 <= a < h.len() && (#[trigger] h[a]) <= j < h[a] + 18;
            assert(e.slots[a].offset == h[a]);
        }
        assert forall|i: int| 0 <= i < e.slots.len() implies (#[trigger] e.slots[i]).offset
            + e.slots[i].slot_len <= data.len() && (e.slots[i].offset + e.slots[i].slot_len
            < data.len() ==> data[e.slots[i].offset + e.slots[i].slot_len] == 0u8) by {
            assert(sentinel_at(data, e.slots[i].offset as int));
            assert(reaches_nul(data, h[i], e.slots[i].slot_len as int));
        }
        assert forall|i: int, z: int|
            0 <= i < e.slots.len() && (#[trigger] e.slots[i]).offset <= z < e.slots[i].offset
                + e.slots[i].slot_len implies #[trigger] data[z] != 0u8 by {
            assert(reaches_nul(data, h[i], e.slots[i].slot_len as int));
        }
        assert forall|a: int, b: int| 0 <= a < b < e.slots.len() implies (
        #[trigger] e.slots[a]).offset + 18 <= (#[trigger] e.slots[b]).offset by {
            assert(e.slots[a].offset == h[a] && e.slots[b].offset == h[b]);
        }
    }
}

/// The path of an entry is made of the parts of the file's path, all of them in
/// order, with a slash between each two and in place of each backslash.
pub proof fn law_index_path(components: Seq<Seq<char>>, part: Seq<char>)
    ensures
        index_path(Seq::empty()) == Seq::<char>::empty(),
        index_path(seq![part]) == part.map_values(
            |c: char|
                if c == '\\' {
                    '/'
                } else {
                    c
                },
        ),
        components.len() > 0 ==> index_path(components.push(part)) == index_path(components) + seq![
            '/',
        ] + part.map_values(
            |c: char|
                if c == '\\' {
                    '/'
                } else {
                    c
                },
        ),
{
    reveal_strlit("/");
    law_joined(components, part, "/"@);
    assert(index_path(Seq::empty()) =~= Seq::<char>::empty());
    assert(index_path(seq![part]) =~= part.map_values(
        |c: char|
            if c == '\\' {
                '/'
            } else {
                c
            },
    ));
    assert(components.len() > 0 ==> index_path(components.push(part)) =~= index_path(components)
        + seq!['/'] + part.map_values(
        |c: char|
            if c == '\\' {
                '/'
            } else {
                c
            },
    ));
}

// ---- what a patch writes ----

/// Every slot is one of the references of a string.
proof fn lemma_slot_in_patch(slots: Seq<BinarySlot>, a: int)
    requires
        0 <= a < slots.len(),
    ensures
        exists|j: int, k: int|
            0 <= j < patches(slots).len() && 0 <= k < patches(slots)[j].refs.len()
                && #[trigger] patches(slots)[j].slot.offset + #[trigger] patches(slots)[j].refs[k]
                == slots[a].offset,
    decreases slots.len(),
{
    let done = patches(slots.drop_last());
    let now = patches(slots);
    let s = slots.last();
    if a < slots.len() - 1 {
        lemma_slot_in_patch(slots.drop_last(), a);
        let (j, k) = choose|j: int, k: int|
            0 <= j < done.len() && 0 <= k < done[j].refs.len() && #[trigger] done[j].slot.offset
                + #[trigger] done[j].refs[k] == slots.drop_last()[a].offset;
        assert(now[j].slot == done[j].slot);
        assert(now[j].refs[k] == done[j].refs[k]);
        assert(now[j].slot.offset + now[j].refs[k] == slots[a].offset);
    } else {
        let j = now.len() - 1;
        let k = now[j].refs.len() - 1;
        assert(now[j].slot.offset + now[j].refs[k] == slots[a].offset);
    }
}

/// A reference stands at `j` or overlaps it.
#[verifier::opaque]
pub open spec fn reached(refs: Seq<int>, j: int) -> bool {
    exists|k: int| 0 <= k < refs.len() && (#[trigger] refs[k]) <= j < refs[k] + SENTINEL_LEN
}

proof fn lemma_between_references(r: Seq<u8>, refs: Seq<int>, new: Seq<u8>, cur: int)
    requires
        0 <= cur <= r.len(),
        refs.len() > 0 ==> cur <= refs[0] <= r.len(),
        forall|j: int, k: int|
            0 <= j < k < refs.len() ==> #[trigger] refs[j] + SENTINEL_LEN <= #[trigger] refs[k],
        forall|j: int| cur <= j && #[trigger] occurs_at(r, sentinel(), j) ==> reached(refs, j),
    ensures
        ({
            let at = if refs.len() > 0 {
                refs[0]
            } else {
                r.len() as int
            };
            replaced_from(r, sentinel(), new, cur) == r.subrange(cur, at) + replaced_from(
                r,
                sentinel(),
                new,
                at,
            )
        }),
{
    let at = if refs.len() > 0 {
        refs[0]
    } else {
        r.len() as int
    };
    assert forall|j: int| cur <= j < at implies !(sentinel().len() > 0 && #[trigger] occurs_at(
        r,
        sentinel(),
        j,
    )) by {
        if occurs_at(r, sentinel(), j) {
            assert(reached(refs, j));
            reveal(reached);
            let k = choose|k: int|
                0 <= k < refs.len() && (#[trigger] refs[k]) <= j < refs[k] + SENTINEL_LEN;
            if k > 0 {
                assert(refs[0] + SENTINEL_LEN <= refs[k]);
            }
        }
    }
    lemma_replaced_up_to(r, sentinel(), new, cur, at);
}

/// Where a reference stands, the new prefix comes, and then the rest.
proof fn lemma_reference_replaced(r: Seq<u8>, refs: Seq<int>, new: Seq<u8>, cur: int)
    requires
        refs.len() > 0,
        occurs_at(r, sentinel(), refs[0]),
    ensures
        replaced_from(r, sentinel(), new, refs[0]) == new + replaced_from(
            r,
            sentinel(),
            new,
            refs[0] + SENTINEL_LEN,
        ),
        rewritten(r, refs, SENTINEL_LEN as int, new, cur, 0) == r.subrange(cur, refs[0]) + new
            + rewritten(r, refs.drop_first(), SENTINEL_LEN as int, new, refs[0] + SENTINEL_LEN, 0),
{
    lemma_sentinel();
}

/// The references after the first, and what they reach.
proof fn lemma_later_references(r: Seq<u8>, refs: Seq<int>, cur: int)
    requires
        refs.len() > 0,
        cur <= refs[0],
        forall|k: int| 0 <= k < refs.len() ==> occurs_at(r, sentinel(), #[trigger] refs[k]),
        forall|j: int, k: int|
            0 <= j < k < refs.len() ==> #[trigger] refs[j] + SENTINEL_LEN <= #[trigger] refs[k],
        forall|j: int| cur <= j && #[trigger] occurs_at(r, sentinel(), j) ==> reached(refs, j),
    ensures
        forall|k: int|
            0 <= k < refs.drop_first().len() ==> refs[0] + SENTINEL_LEN <= (
            #[trigger] refs.drop_first()[k]) && occurs_at(r, sentinel(), refs.drop_first()[k]),
        forall|j: int, k: int|
            0 <= j < k < refs.drop_first().len() ==> #[trigger] refs.drop_first()[j] + SENTINEL_LEN
                <= #[trigger] refs.drop_first()[k],
        forall|j: int|
            refs[0] + SENTINEL_LEN <= j && #[trigger] occurs_at(r, sentinel(), j) ==> reached(
                refs.drop_first(),
                j,
            ),
{
    let rest = refs.drop_first();
    let next = refs[0] + SENTINEL_LEN;
    assert forall|k: int| 0 <= k < rest.len() implies next <= (#[trigger] rest[k]) && occurs_at(
        r,
        sentinel(),
        rest[k],
    ) by {
        assert(rest[k] == refs[k + 1]);
        assert(refs[0] + SENTINEL_LEN <= refs[k + 1]);
    }
    assert forall|j: int, k: int| 0 <= j < k < rest.len() implies #[trigger] rest[j] + SENTINEL_LEN
        <= #[trigger] rest[k] by {
        assert(rest[j] == refs[j + 1] && rest[k] == refs[k + 1]);
    }
    assert forall|j: int| next <= j && #[trigger] occurs_at(r, sentinel(), j) implies reached(
        rest,
        j,
    ) by {
        assert(reached(refs, j));
        reveal(reached);
        let k = choose|k: int|
            0 <= k < refs.len() && (#[trigger] refs[k]) <= j < refs[k] + SENTINEL_LEN;
        assert(rest[k - 1] == refs[k]);
    }
}

/// From `cur` on, putting the new prefix at each reference is replacing the
/// sentinel, where no sentinel is passed over.
proof fn lemma_rewritten_replaces(r: Seq<u8>, refs: Seq<int>, new: Seq<u8>, cur: int)
    requires
        0 <= cur <= r.len(),
        forall|k: int| 0 <= k < r.len() ==> #[trigger] r[k] != 0u8,
        forall|k: int|
            0 <= k < refs.len() ==> cur <= (#[trigger] refs[k]) && occurs_at(
                r,
                sentinel(),
                refs[k],
            ),
        forall|j: int, k: int|
            0 <= j < k < refs.len() ==> #[trigger] refs[j] + SENTINEL_LEN <= #[trigger] refs[k],
        forall|j: int| cur <= j && #[trigger] occurs_at(r, sentinel(), j) ==> reached(refs, j),
    ensures
        rewritten(r, refs, SENTINEL_LEN as int, new, cur, 0) == replaced_from(
            r,
            sentinel(),
            new,
            cur,
        ),
    decreases refs.len(),
{
    lemma_sentinel();
    if refs.len() > 0 {
        assert(occurs_at(r, sentinel(), refs[0]));
    }
    lemma_between_references(r, refs, new, cur);
    if refs.len() == 0 {
        let t = r.subrange(cur, r.len() as int);
        if t.len() > 0 {
            assert(t.last() == r[r.len() - 1]);
        }
        assert(stripped(t) == t);
        assert(t + Seq::<u8>::empty() =~= t);
    } else {
        let at = refs[0];
        lemma_later_references(r, refs, cur);
        lemma_reference_replaced(r, refs, new, cur);
        lemma_rewritten_replaces(r, refs.drop_first(), new, at + SENTINEL_LEN);
        let tail = replaced_from(r, sentinel(), new, at + SENTINEL_LEN);
        assert(r.subrange(cur, at) + new + tail =~= r.subrange(cur, at) + (new + tail));
    }
}

/// The strings that start at the slots of a scan hold no reference but theirs.
proof fn lemma_fresh_string(data: Seq<u8>, slots: Seq<BinarySlot>, j: int, new: Seq<u8>)
    requires
        slots_of(data, slots),
        0 <= j < patches(slots).len(),
    ensures
        ({
            let p = patches(slots)[j];
            rewritten(region(data, p.slot), p.refs, SENTINEL_LEN as int, new, 0, 0) == replaced(
                region(data, p.slot),
                sentinel(),
                new,
            )
        }),
{
    let ps = patches(slots);
    let p = ps[j];
    let h = hits(data, sentinel());
    lemma_sentinel();
    lemma_hits(data, sentinel(), 0);
    law_scanned_strings_are_apart(data, slots);
    assert(fresh(data, p));
    let off = p.slot.offset as int;
    let r = region(data, p.slot);
    assert(occurs_at(data, sentinel(), off + p.refs[0]));
    assert(r.len() == p.slot.slot_len);
    assert forall|k: int| 0 <= k < p.refs.len() implies 0 <= (#[trigger] p.refs[k]) && occurs_at(
        r,
        sentinel(),
        p.refs[k],
    ) by {
        if k > 0 {
            assert(p.refs[0] + SENTINEL_LEN <= p.refs[k]);
        }
        assert(occurs_at(data, sentinel(), off + p.refs[k]));
        assert(r.subrange(p.refs[k], p.refs[k] + 18) =~= data.subrange(
            off + p.refs[k],
            off + p.refs[k] + 18,
        ));
    }
    assert forall|i: int| 0 <= i && #[trigger] occurs_at(r, sentinel(), i) implies reached(
        p.refs,
        i,
    ) by {
        assert(data.subrange(off + i, off + i + 18) =~= r.subrange(i, i + 18));
        law_no_occurrence_is_missed(data, sentinel(), off + i);
        let a = choose|a: int| 0 <= a < h.len() && (#[trigger] h[a]) <= off + i < h[a] + 18;
        assert(slots[a].offset == h[a]);
        lemma_slot_in_patch(slots, a);
        let (jj, k) = choose|jj: int, k: int|
            0 <= jj < ps.len() && 0 <= k < ps[jj].refs.len() && #[trigger] ps[jj].slot.offset
                + #[trigger] ps[jj].refs[k] == slots[a].offset;
        assert(fresh(data, ps[jj]));
        assert(ps[jj].refs[k] + SENTINEL_LEN <= ps[jj].slot.slot_len);
        // The string starts at a hit, so that a hit before it ends before it.
        law_no_occurrence_is_missed(data, sentinel(), off);
        lemma_slot_in_patch_start(data, slots, j);
        let b = choose|b: int| 0 <= b < slots.len() && (#[trigger] slots[b]).offset == off;
        assert(slots[b].offset == h[b]);
        assert(h[a] >= off) by {
            if a < b {
                assert(h[a] + 18 <= h[b]);
            } else if a > b {
                assert(h[b] + 18 <= h[a]);
            }
        }
        if jj < j {
            assert(ps[jj].slot.offset + ps[jj].slot.slot_len <= ps[j].slot.offset);
        } else if jj > j {
            assert(ps[j].slot.offset + ps[j].slot.slot_len <= ps[jj].slot.offset);
            if k > 0 {
                assert(ps[jj].refs[0] + SENTINEL_LEN <= ps[jj].refs[k]);
            }
        }
        assert(jj == j);
        assert(p.refs[k] <= i < p.refs[k] + SENTINEL_LEN);
        reveal(reached);
    }
    lemma_rewritten_replaces(r, p.refs, new, 0);
}

/// A string starts at a slot.
proof fn lemma_slot_in_patch_start(data: Seq<u8>, slots: Seq<BinarySlot>, j: int)
    requires
        0 <= j < patches(slots).len(),
    ensures
        exists|b: int| 0 <= b < slots.len() && (#[trigger] slots[b]).offset as int == patches(
            slots,
        )[j].slot.offset && slots[b].slot_len == patches(slots)[j].slot.slot_len,
    decreases slots.len(),
{
    let done = patches(slots.drop_last());
    let now = patches(slots);
    if slots.len() > 0 {
        if j < done.len() {
            lemma_slot_in_patch_start(data, slots.drop_last(), j);
            let b = choose|b: int| 0 <= b < slots.drop_last().len() && (
            #[trigger] slots.drop_last()[b]).offset as int == done[j].slot.offset
                && slots.drop_last()[b].slot_len == done[j].slot.slot_len;
            assert(now[j].slot == done[j].slot);
            assert(slots[b] == slots.drop_last()[b]);
        } else {
            assert(now[j].slot == slots[slots.len() - 1]);
        }
    }
}

/// `a` is where the first sentinel of a string stands, and `b` the end of the
/// string, at a NUL or at the end of the file.
pub open spec fn carrier_string(data: Seq<u8>, a: int, b: int) -> bool {
    &&& 0 <= a < b <= data.len()
    &&& sentinel_at(data, a)
    &&& forall|z: int| a <= z < b ==> #[trigger] data[z] != 0u8
    &&& b < data.len() ==> data[b] == 0u8
    &&& forall|j: int|
        0 <= j < a && #[trigger] sentinel_at(data, j) ==> exists|z: int|
            j <= z < a && #[trigger] data[z] == 0u8
}

/// Patching a binary file that was just scanned replaces the sentinel by the new
/// prefix in every string of the file, moves up what follows it, and fills the
/// string with NULs; bytes that follow no sentinel in their string, and the size
/// of the file, stay as they are.
pub proof fn law_binary_strings_are_rewritten(
    e: EntryModel,
    components: Seq<Seq<char>>,
    data: Seq<u8>,
    new: Seq<u8>,
    a: int,
    b: int,
    z: int,
)
    requires
        describes(e, components, data),
        e.kind == FileKind::Binary,
        new.len() <= 18,
        carrier_string(data, a, b),
        0 <= z < data.len(),
        forall|j: int|
            0 <= j <= z && #[trigger] sentinel_at(data, j) ==> exists|y: int|
                j <= y <= z && #[trigger] data[y] == 0u8,
    ensures
        patched_data(data, e, encode_utf8("__TOOLBOX_PREFIX__"@), new).len() == data.len(),
        replaced(data.subrange(a, b), encode_utf8("__TOOLBOX_PREFIX__"@), new).len() <= b - a,
        patched_data(data, e, encode_utf8("__TOOLBOX_PREFIX__"@), new).subrange(a, b) == replaced(
            data.subrange(a, b),
            encode_utf8("__TOOLBOX_PREFIX__"@),
            new,
        ) + Seq::new(
            (b - a - replaced(
                data.subrange(a, b),
                encode_utf8("__TOOLBOX_PREFIX__"@),
                new,
            ).len()) as nat,
            |i: int| 0u8,
        ),
        patched_data(data, e, encode_utf8("__TOOLBOX_PREFIX__"@), new)[z] == data[z],
{
    let ps = patches(e.slots);
    let h = hits(data, sentinel());
    let slots = e.slots;
    lemma_sentinel();
    lemma_hits(data, sentinel(), 0);
    law_scanned_strings_are_apart(data, slots);
    assert forall|j: int| 0 <= j < ps.len() implies in_range(data, (#[trigger] ps[j]).slot) by {
        assert(fresh(data, ps[j]));
    }
    lemma_slots_written(data, ps, 18, new);
    let out = patched_data(data, e, sentinel(), new);
    // The string that starts at `a`.
    law_no_occurrence_is_missed(data, sentinel(), a);
    let i = choose|i: int| 0 <= i < h.len() && (#[trigger] h[i]) <= a < h[i] + 18;
    assert(occurs_at(data, sentinel(), h[i]));
    assert(h[i] == a) by {
        if h[i] < a {
            assert(sentinel_at(data, h[i]));
            let y = choose|y: int| h[i] <= y < a && #[trigger] data[y] == 0u8;
            assert(data.subrange(h[i], h[i] + 18)[y - h[i]] == sentinel()[y - h[i]]);
        }
    }
    assert(slots[i].offset == a);
    lemma_slot_in_patch(slots, i);
    let (j, k) = choose|j: int, k: int|
        0 <= j < ps.len() && 0 <= k < ps[j].refs.len() && #[trigger] ps[j].slot.offset
            + #[trigger] ps[j].refs[k] == slots[i].offset;
    let p = ps[j];
    assert(fresh(data, p));
    assert(p.refs[k] + SENTINEL_LEN <= p.slot.slot_len);
    if k > 0 {
        assert(p.refs[0] + SENTINEL_LEN <= p.refs[k]);
    }
    assert(p.slot.offset == a) by {
        if p.slot.offset < a {
            assert(occurs_at(data, sentinel(), p.slot.offset + p.refs[0]));
            assert(sentinel_at(data, p.slot.offset as int));
            let y = choose|y: int| p.slot.offset <= y < a && #[trigger] data[y] == 0u8;
            assert(data[y] != 0u8);
        }
    }
    let n = p.slot.slot_len as int;
    assert(reaches_nul(data, a, n));
    assert(n == b - a) by {
        if n < b - a {
            assert(data[a + n] == 0u8);
        } else if n > b - a {
            assert(data[b] != 0u8);
        }
    }
    let r = region(data, p.slot);
    assert(r == data.subrange(a, b));
    lemma_fresh_string(data, slots, j, new);
    let w = replaced(r, sentinel(), new);
    assert forall|k: int| 0 <= k < p.refs.len() implies 0 <= (#[trigger] p.refs[k]) && occurs_at(
        r,
        sentinel(),
        p.refs[k],
    ) by {
        if k > 0 {
            assert(p.refs[0] + SENTINEL_LEN <= p.refs[k]);
        }
        assert(occurs_at(data, sentinel(), a + p.refs[k]));
        assert(r.subrange(p.refs[k], p.refs[k] + 18) =~= data.subrange(
            a + p.refs[k],
            a + p.refs[k] + 18,
        ));
    }
    lemma_fresh_length(r, p.refs, new, 0);
    let filled = w + Seq::new((b - a - w.len()) as nat, |i: int| 0u8);
    assert forall|x: int| 0 <= x < b - a implies out.subrange(a, b)[x] == filled[x] by {
        assert(within(ps, j, a + x));
        assert(out[a + x] == patched_region(r, p.refs, 18, new)[x]);
        assert(out[a + x] == resized(w, r.len())[x]);
    }
    assert(out.subrange(a, b) =~= filled);
    // The byte at `z`.
    assert forall|jj: int| !within(ps, jj, z) by {
        if within(ps, jj, z) {
            let q = ps[jj];
            assert(fresh(data, q));
            assert(occurs_at(data, sentinel(), q.slot.offset + q.refs[0]));
            assert(sentinel_at(data, q.slot.offset as int));
            let y = choose|y: int| q.slot.offset <= y <= z && #[trigger] data[y] == 0u8;
            assert(data[y] != 0u8);
        }
    }
    assert(out[z] == data[z]);
}

/// A relocation that succeeds rewrites the file of every entry, of a text file
/// each occurrence of the old prefix; no file comes or goes, files that the index
/// does not name stay as they are, and the new prefix is on record.
pub proof fn law_relocation_reaches_every_file(
    before: TreeModel,
    index: Seq<EntryModel>,
    prev: Seq<char>,
    new: Seq<char>,
    after: TreeModel,
    j: int,
    path: Seq<char>,
)
    requires
        relocates(before, index, prev, new, after, Ok(())),
        prev != new,
        one_each(index),
        0 <= j < index.len(),
    ensures
        after.last_prefix_file == Some(new),
        after.files.dom() == before.files.dom(),
        before.files.contains_key(index[j].path),
        index[j].kind == FileKind::Text ==> after.files[index[j].path] == replaced(
            before.files[index[j].path],
            encode_utf8(prev),
            encode_utf8(new),
        ),
        index[j].kind == FileKind::Binary ==> after.files[index[j].path] == patched_data(
            before.files[index[j].path],
            index[j],
            encode_utf8(prev),
            encode_utf8(new),
        ),
        before.files.contains_key(path) && (forall|i: int|
            0 <= i < index.len() ==> (#[trigger] index[i]).path != path) ==> after.files[path]
            == before.files[path],
{
    let (p, q) = (encode_utf8(prev), encode_utf8(new));
    let len = index.len() as int;
    law_other_files_kept(before.files, index, p, q, len, path);
    law_other_files_kept(before.files, index, p, q, j, path);
    assert(patch_problem(patched_files(before.files, index, p, q, j), index[j]) is None);
    lemma_file_patched(before.files, index, p, q, len, j);
}

/// Where every file of the index is there and every binary one was just scanned,
/// a prefix that is no longer than the sentinel is put in its place; a longer one
/// is refused where there is a binary file, and the env stays as it was.
pub proof fn law_fresh_env_is_relocated(
    before: TreeModel,
    index: Seq<EntryModel>,
    comps: Seq<Seq<Seq<char>>>,
    new: Seq<char>,
    after: TreeModel,
    r: Result<(), RelocateError>,
)
    requires
        relocates(before, index, "__TOOLBOX_PREFIX__"@, new, after, r),
        new != "__TOOLBOX_PREFIX__"@,
        one_each(index),
        comps.len() == index.len(),
        forall|j: int|
            0 <= j < index.len() ==> before.files.contains_key((#[trigger] index[j]).path)
                && is_indexed(comps[j], before.files[index[j].path]) && describes(
                index[j],
                comps[j],
                before.files[index[j].path],
            ),
    ensures
        r is Ok <==> encode_utf8(new).len() <= 18 || forall|j: int|
            0 <= j < index.len() ==> (#[trigger] index[j]).kind == FileKind::Text,
        r is Err ==> after == before,
{
    let (p, q) = (sentinel(), encode_utf8(new));
    let len = index.len() as int;
    lemma_sentinel();
    assert forall|j: int| 0 <= j < len implies (entry_problem(
        before.files,
        #[trigger] index[j],
        p,
        q,
    ) is None <==> q.len() <= 18 || index[j].kind == FileKind::Text) by {
        if index[j].kind == FileKind::Binary {
            law_fresh_scan_takes_short_prefixes(
                index[j],
                comps[j],
                before.files[index[j].path],
                q,
            );
        }
    }
    if q.len() <= 18 || forall|j: int|
        0 <= j < index.len() ==> (#[trigger] index[j]).kind == FileKind::Text {
        assert(valid_up_to(before.files, index, p, q, len));
        lemma_all_patchable(before.files, index, p, q);
        match r {
            Err(RelocateError::Validate { entry, cause }) => {
                assert(entry_problem(before.files, index[entry as int], p, q) is None);
            },
            Err(RelocateError::Patch { entry, cause }) => {
                assert(patch_problem(
                    patched_files(before.files, index, p, q, entry as int),
                    index[entry as int],
                ) is None);
            },
            Ok(()) => {},
        }
    } else {
        let j = choose|j: int|
            0 <= j < index.len() && (#[trigger] index[j]).kind != FileKind::Text;
        assert(entry_problem(before.files, index[j], p, q) is Some);
        assert(!valid_up_to(before.files, index, p, q, len));
    }
}

/// The prefix that an env carries is the sentinel before the first relocation,
/// and after that what its last-prefix file holds between white space.
pub proof fn law_carried_prefix(head: Seq<char>, prefix: Seq<char>, tail: Seq<char>)
    requires
        prefix.len() > 0 ==> !is_white(prefix[0]) && !is_white(prefix.last()),
        forall|i: int| 0 <= i < head.len() ==> is_white(#[trigger] head[i]),
        forall|i: int| 0 <= i < tail.len() ==> is_white(#[trigger] tail[i]),
    ensures
        carried_prefix(None) == "__TOOLBOX_PREFIX__"@,
        carried_prefix(Some(head + prefix + tail)) == prefix,
{
    law_trimmed(head, prefix, tail);
}

// ---- the index of an env over time ----

/// An entry of the index names the file.
pub open spec fn names(index: Seq<EntryModel>, path: Seq<char>) -> bool {
    exists|i: int| 0 <= i < index.len() && (#[trigger] index[i]).path == path
}

/// The entries of `old` that stay: those of files that are present and that
/// were not found anew, each file once.
pub open spec fn staying(
    old: Seq<EntryModel>,
    found: Seq<EntryModel>,
    present: Seq<Seq<char>>,
) -> Seq<EntryModel>
    decreases old.len(),
{
    if old.len() == 0 {
        Seq::empty()
    } else {
        let done = staying(old.drop_last(), found, present);
        let e = old.last();
        if present.contains(e.path) && !names(found, e.path) && !names(done, e.path) {
            done.push(e)
        } else {
            done
        }
    }
}

/// The index of an env in which `found` was found, after `old`: the entries that
/// stay, and all that was found.
pub open spec fn upkept(
    old: Seq<EntryModel>,
    found: Seq<EntryModel>,
    present: Seq<Seq<char>>,
) -> Seq<EntryModel> {
    staying(old, found, present) + found
}

fn copy_entry(e: &RelocateEntry) -> (r: RelocateEntry)
    ensures
        r@ == e@,
{
    let mut slots: Vec<BinarySlot> = Vec::new();
    let mut i: usize = 0;
    while i < e.binary_slots.len()
        invariant
            i <= e.binary_slots.len(),
            slots@ == e.binary_slots@.take(i as int),
        decreases e.binary_slots.len() - i,
    {
        slots.push(e.binary_slots[i]);
        assert(e.binary_slots@.take(i + 1) =~= e.binary_slots@.take(i as int).push(
            e.binary_slots@[i as int],
        ));
        i = i + 1;
    }
    assert(e.binary_slots@.take(e.binary_slots@.len() as int) =~= e.binary_slots@);
    RelocateEntry { path: e.path.clone(), kind: e.kind, binary_slots: slots }
}

fn is_named(entries: &Vec<RelocateEntry>, path: &str) -> (r: bool)
    ensures
        r == names(Seq::new(entries@.len(), |i: int| entries@[i]@), path@),
{
    let ghost all = Seq::new(entries@.len(), |i: int| entries@[i]@);
    let mut i: usize = 0;
    while i < entries.len()
        invariant
            i <= entries.len(),
            all == Seq::new(entries@.len(), |i: int| entries@[i]@),
            forall|j: int| 0 <= j < i ==> (#[trigger] all[j]).path != path@,
        decreases entries.len() - i,
    {
        if same(entries[i].path.as_str(), path) {
            assert(all[i as int].path == path@);
            return true;
        }
        i = i + 1;
    }
    false
}

/// The paths of the entries that name a file which is there and was not laid
/// anew. `there` tells it of the entry at each position.
pub open spec fn unlaid(all: Seq<EntryModel>, there: Seq<bool>, laid: Seq<Seq<char>>) -> Seq<
    Seq<char>,
>
    decreases all.len(),
{
    if all.len() == 0 {
        Seq::empty()
    } else {
        let rest = unlaid(all.drop_last(), there, laid);
        let n = all.len() - 1;
        if n < there.len() && there[n] && !laid.contains(all[n].path) {
            rest.push(all[n].path)
        } else {
            rest
        }
    }
}

proof fn lemma_unlaid(
    all: Seq<EntryModel>,
    there: Seq<bool>,
    laid: Seq<Seq<char>>,
    path: Seq<char>,
)
    ensures
        unlaid(all, there, laid).contains(path) <==> !laid.contains(path) && exists|i: int|
            0 <= i < all.len() && i < there.len() && there[i] && #[trigger] all[i].path == path,
    decreases all.len(),
{
    if all.len() > 0 {
        let t = all.drop_last();
        let n = all.len() - 1;
        let rest = unlaid(t, there, laid);
        let r = unlaid(all, there, laid);
        lemma_unlaid(t, there, laid, path);
        if rest.contains(path) {
            let k = choose|k: int| 0 <= k < rest.len() && rest[k] == path;
            assert(r[k] == path);
            let i = choose|i: int|
                0 <= i < t.len() && i < there.len() && there[i] && #[trigger] t[i].path == path;
            assert(all[i].path == path);
        }
        if r.contains(path) && !rest.contains(path) {
            let k = choose|k: int| 0 <= k < r.len() && r[k] == path;
            assert(k == rest.len()) by {
                if k < rest.len() {
                    assert(rest[k] == path);
                }
            }
            assert(all[n].path == path);
        }
        if !laid.contains(path) && exists|i: int|
            0 <= i < all.len() && i < there.len() && there[i] && #[trigger] all[i].path == path {
            let i = choose|i: int|
                0 <= i < all.len() && i < there.len() && there[i] && #[trigger] all[i].path == path;
            if i < n {
                assert(t[i].path == path);
            } else {
                assert(r[rest.len() as int] == path);
            }
        }
    }
}

/// The files that are there as they were when `old` was kept. `there` tells of
/// each entry of `old` whether there is a file at its path, and `laid` are the
/// files that were put there since.
pub fn present_entries(old: &RelocateIndex, there: &Vec<bool>, laid: &Vec<String>) -> (r: Vec<
    String,
>)
    ensures
        texts(r@) == unlaid(old@, there@, texts(laid@)),
        forall|path: Seq<char>| #[trigger]
            texts(r@).contains(path) <==> !texts(laid@).contains(path) && exists|i: int|
                0 <= i < old@.len() && i < there@.len() && there@[i] && #[trigger] old@[i].path
                    == path,
{
    let ghost all = old@;
    let ghost ls = texts(laid@);
    let mut r: Vec<String> = Vec::new();
    let mut i: usize = 0;
    assert(texts(r@) =~= Seq::<Seq<char>>::empty());
    while i < old.entries.len()
        invariant
            i <= old.entries.len(),
            all == old@,
            ls == texts(laid@),
            texts(r@) == unlaid(all.take(i as int), there@, ls),
        decreases old.entries.len() - i,
    {
        let e = &old.entries[i];
        let ghost before = texts(r@);
        proof {
            assert(all.take(i + 1).drop_last() =~= all.take(i as int));
            assert(all.take(i + 1)[i as int] == e@);
        }
        if i < there.len() && there[i] && !among(laid, e.path.as_str()) {
            r.push(e.path.clone());
            assert(texts(r@) =~= before.push(e.path@));
        }
        i = i + 1;
    }
    assert(all.take(all.len() as int) =~= all);
    proof {
        assert forall|path: Seq<char>| #[trigger]
            texts(r@).contains(path) <==> !ls.contains(path) && exists|j: int|
                0 <= j < all.len() && j < there@.len() && there@[j] && #[trigger] all[j].path
                    == path by {
            lemma_unlaid(all, there@, ls, path);
        }
    }
    r
}

/// The index to keep for an env in which `found` was found. `present` are the
/// files that are there as they were when `old` was kept. Files that were patched
/// before hold no sentinel any more, so that only their old entries tell where
/// they carry the prefix.
pub fn merged_index(old: &RelocateIndex, found: RelocateIndex, present: &Vec<String>) -> (r:
    RelocateIndex)
    ensures
        r@ == upkept(old@, found@, texts(present@)),
        forall|path: Seq<char>| #[trigger]
            names(r@, path) <==> names(found@, path) || (names(old@, path) && texts(
                present@,
            ).contains(path)),
        one_each(found@) ==> one_each(r@),
{
    let ghost all = old@;
    let ghost fs = found@;
    let ghost ps = texts(present@);
    let mut entries: Vec<RelocateEntry> = Vec::new();
    let mut i: usize = 0;
    assert(Seq::new(entries@.len(), |j: int| entries@[j]@) =~= Seq::<EntryModel>::empty());
    while i < old.entries.len()
        invariant
            i <= old.entries.len(),
            all == old@,
            fs == found@,
            ps == texts(present@),
            Seq::new(entries@.len(), |j: int| entries@[j]@) == staying(all.take(i as int), fs, ps),
        decreases old.entries.len() - i,
    {
        let e = &old.entries[i];
        let ghost before = Seq::new(entries@.len(), |j: int| entries@[j]@);
        proof {
            assert(all.take(i + 1).drop_last() =~= all.take(i as int));
            assert(all.take(i + 1).last() == e@);
            assert(fs =~= Seq::new(found.entries@.len(), |j: int| found.entries@[j]@));
        }
        if among(present, e.path.as_str()) && !is_named(&found.entries, e.path.as_str())
            && !is_named(&entries, e.path.as_str()) {
            let c = copy_entry(e);
            entries.push(c);
            assert(Seq::new(entries@.len(), |j: int| entries@[j]@) =~= before.push(c@));
        }
        i = i + 1;
    }
    assert(all.take(all.len() as int) =~= all);
    let mut found = found;
    let ghost kept = Seq::new(entries@.len(), |j: int| entries@[j]@);
    let ghost a = entries@;
    let ghost b = found.entries@;
    entries.append(&mut found.entries);
    let r = RelocateIndex { entries };
    proof {
        assert(r.entries@ =~= a + b);
        assert(r@ =~= kept + fs);
        assert forall|path: Seq<char>| #[trigger] names(r@, path) <==> names(fs, path) || (names(
            all,
            path,
        ) && ps.contains(path)) by {
            law_index_keeps_what_is_there(all, fs, ps, path);
        }
        if one_each(fs) {
            lemma_upkept_once(all, fs, ps);
        }
    }
    r
}

/// The index names what was found and what it named of the files that are there,
/// and nothing else; the old entry of a file stays as it was.
pub proof fn law_index_keeps_what_is_there(
    old: Seq<EntryModel>,
    found: Seq<EntryModel>,
    present: Seq<Seq<char>>,
    path: Seq<char>,
)
    ensures
        names(upkept(old, found, present), path) <==> names(found, path) || (names(old, path)
            && present.contains(path)),
        forall|j: int| 0 <= j < upkept(old, found, present).len() ==> old.contains(
            #[trigger] upkept(old, found, present)[j],
        ) || found.contains(upkept(old, found, present)[j]),
{
    let kept = staying(old, found, present);
    let all = upkept(old, found, present);
    lemma_staying(old, found, present, path);
    if names(found, path) {
        let i = choose|i: int| 0 <= i < found.len() && (#[trigger] found[i]).path == path;
        assert(all[kept.len() + i].path == path);
    }
    if names(kept, path) {
        let i = choose|i: int| 0 <= i < kept.len() && (#[trigger] kept[i]).path == path;
        assert(all[i].path == path);
    }
    if names(all, path) {
        let i = choose|i: int| 0 <= i < all.len() && (#[trigger] all[i]).path == path;
        if i < kept.len() {
            assert(kept[i].path == path);
        } else {
            assert(found[i - kept.len()].path == path);
        }
    }
    assert forall|j: int| 0 <= j < all.len() implies old.contains(#[trigger] all[j])
        || found.contains(all[j]) by {
        if j < kept.len() {
            assert(kept[j] == all[j]);
        } else {
            assert(found[j - kept.len()] == all[j]);
        }
    }
}

proof fn lemma_staying(
    old: Seq<EntryModel>,
    found: Seq<EntryModel>,
    present: Seq<Seq<char>>,
    path: Seq<char>,
)
    ensures
        names(staying(old, found, present), path) <==> names(old, path) && present.contains(path)
            && !names(found, path),
        forall|j: int| 0 <= j < staying(old, found, present).len() ==> old.contains(
            #[trigger] staying(old, found, present)[j],
        ) && present.contains(staying(old, found, present)[j].path) && !names(
            found,
            staying(old, found, present)[j].path,
        ),
        one_each(staying(old, found, present)),
    decreases old.len(),
{
    if old.len() > 0 {
        let rest = old.drop_last();
        let done = staying(rest, found, present);
        let e = old.last();
        let now = staying(old, found, present);
        lemma_staying(rest, found, present, path);
        if names(rest, path) {
            let i = choose|i: int| 0 <= i < rest.len() && (#[trigger] rest[i]).path == path;
            assert(old[i].path == path);
        }
        if names(old, path) {
            let i = choose|i: int| 0 <= i < old.len() && (#[trigger] old[i]).path == path;
            if i < rest.len() {
                assert(rest[i].path == path);
            } else {
                assert(e.path == path);
            }
        }
        assert(old[old.len() - 1] == e);
        if names(done, path) {
            let i = choose|i: int| 0 <= i < done.len() && (#[trigger] done[i]).path == path;
            assert(now[i].path == path);
        }
        if now.len() > done.len() {
            assert(now[now.len() - 1] == e);
        }
        if names(now, path) {
            let i = choose|i: int| 0 <= i < now.len() && (#[trigger] now[i]).path == path;
            if i < done.len() {
                assert(done[i].path == path);
            }
        }
        assert forall|j: int| 0 <= j < now.len() implies old.contains(#[trigger] now[j])
            && present.contains(now[j].path) && !names(found, now[j].path) by {
            if j < done.len() {
                assert(now[j] == done[j]);
                let i = choose|i: int| 0 <= i < rest.len() && rest[i] == done[j];
                assert(old[i] == now[j]);
            }
        }
        assert forall|i: int, j: int| 0 <= i < j < now.len() implies (#[trigger] now[i]).path != (
        #[trigger] now[j]).path by {
            assert(now[i] == done[i]);
            if j < done.len() {
                assert(now[j] == done[j]);
            } else if now[i].path == e.path {
                assert(names(done, e.path));
            }
        }
    }
}

proof fn lemma_upkept_once(
    old: Seq<EntryModel>,
    found: Seq<EntryModel>,
    present: Seq<Seq<char>>,
)
    requires
        one_each(found),
    ensures
        one_each(upkept(old, found, present)),
{
    let kept = staying(old, found, present);
    let all = upkept(old, found, present);
    lemma_staying(old, found, present, Seq::empty());
    assert forall|i: int, j: int| 0 <= i < j < all.len() implies (#[trigger] all[i]).path != (
    #[trigger] all[j]).path by {
        if j < kept.len() {
            assert(all[i] == kept[i] && all[j] == kept[j]);
        } else if i < kept.len() {
            assert(all[i] == kept[i]);
            if all[i].path == all[j].path {
                assert(found[j - kept.len()].path == kept[i].path);
                assert(names(found, kept[i].path));
            }
        } else {
            assert(all[i] == found[i - kept.len()] && all[j] == found[j - kept.len()]);
        }
    }
}

/// An env over time: its files, its index, and what the files in the index held
/// when they carried the sentinel.
pub struct EnvState {
    pub files: Map<Seq<char>, Seq<u8>>,
    pub index: Seq<EntryModel>,
    pub pristine: Map<Seq<char>, Seq<u8>>,
}

/// The entry's file, with this content before it was ever patched, can be patched
/// for `root`.
pub open spec fn mountable(data: Seq<u8>, e: EntryModel, root: Seq<char>) -> bool {
    match e.kind {
        FileKind::Text => true,
        FileKind::Binary => disjoint(patches(e.slots)) && first_problem(
            data,
            patches(e.slots),
            sentinel(),
            encode_utf8(root),
            0,
        ) is None,
    }
}

/// Every file in the index carries `root`: it holds what it held with the
/// sentinel, with `root` in place of each reference.
pub open spec fn mounted(s: EnvState, root: Seq<char>) -> bool {
    &&& one_each(s.index)
    &&& forall|j: int|
        0 <= j < s.index.len() ==> carries(s, #[trigger] s.index[j], root)
}

/// The file of the entry carries `root`.
pub open spec fn carries(s: EnvState, e: EntryModel, root: Seq<char>) -> bool {
    &&& s.files.contains_key(e.path)
    &&& s.pristine.contains_key(e.path)
    &&& mountable(s.pristine[e.path], e, root)
    &&& s.files[e.path] == patched_data(
        s.pristine[e.path],
        e,
        sentinel(),
        encode_utf8(root),
    )
}

/// `present` are the files of `files` that are not in `laid`.
pub open spec fn untouched(
    files: Map<Seq<char>, Seq<u8>>,
    laid: Map<Seq<char>, Seq<u8>>,
    present: Seq<Seq<char>>,
) -> bool {
    forall|path: Seq<char>| #[trigger]
        present.contains(path) ==> files.contains_key(path) && !laid.contains_key(path)
}

/// The files that an install left alone are those of the index that are there
/// after it and that it did not lay down.
pub proof fn law_present_files_are_untouched(
    files: Map<Seq<char>, Seq<u8>>,
    laid: Map<Seq<char>, Seq<u8>>,
    old: Seq<EntryModel>,
    there: Seq<bool>,
    names: Seq<Seq<char>>,
)
    requires
        forall|i: int|
            0 <= i < old.len() && i < there.len() && there[i] ==> files.union_prefer_right(
                laid,
            ).contains_key((#[trigger] old[i]).path),
        forall|path: Seq<char>| #[trigger] laid.contains_key(path) ==> names.contains(path),
    ensures
        untouched(files, laid, unlaid(old, there, names)),
{
    assert forall|path: Seq<char>| #[trigger]
        unlaid(old, there, names).contains(path) implies files.contains_key(path)
        && !laid.contains_key(path) by {
        lemma_unlaid(old, there, names, path);
    }
}

/// An install at `root` lays down the files `laid`. The scan that follows finds
/// `found`, which is patched from the sentinel to `root`, and the index is kept
/// up. Files in the index that the install did not lay down were patched before
/// and hold no sentinel.
pub open spec fn installs(
    before: EnvState,
    after: EnvState,
    laid: Map<Seq<char>, Seq<u8>>,
    found: Seq<EntryModel>,
    present: Seq<Seq<char>>,
    root: Seq<char>,
) -> bool {
    let files = before.files.union_prefer_right(laid);
    let (p, q) = (sentinel(), encode_utf8(root));
    &&& untouched(before.files, laid, present)
    &&& one_each(found)
    &&& forall|j: int|
        0 <= j < found.len() ==> files.contains_key((#[trigger] found[j]).path) && (found[j].kind
            == FileKind::Binary ==> slots_of(files[found[j].path], found[j].slots))
    &&& valid_up_to(files, found, p, q, found.len() as int)
    &&& after.files == patched_files(files, found, p, q, found.len() as int)
    &&& after.index == upkept(before.index, found, present)
    &&& after.pristine == Map::new(
        |path: Seq<char>| before.pristine.contains_key(path) || names(found, path),
        |path: Seq<char>|
            if names(found, path) {
                files[path]
            } else {
                before.pristine[path]
            },
    )
}

/// An uninstall leaves the files `present` of the index, and the index is kept
/// up.
pub open spec fn uninstalls(before: EnvState, after: EnvState, present: Seq<Seq<char>>) -> bool {
    &&& after.index == upkept(before.index, Seq::empty(), present)
    &&& after.pristine == before.pristine
    &&& forall|path: Seq<char>| #[trigger]
        present.contains(path) ==> after.files.contains_key(path) && before.files.contains_key(path)
            && after.files[path] == before.files[path]
}

/// `after` comes from `before` by an install or an uninstall at `root`.
pub open spec fn steps(before: EnvState, after: EnvState, root: Seq<char>) -> bool {
    ||| exists|
        laid: Map<Seq<char>, Seq<u8>>,
        found: Seq<EntryModel>,
        present: Seq<Seq<char>>,
    |
        installs(before, after, laid, found, present, root)
    ||| exists|present: Seq<Seq<char>>| uninstalls(before, after, present)
}

/// After an install every file in the index carries `root`, those of packages
/// that were installed before among them.
pub proof fn law_install_keeps_the_rest_mounted(
    before: EnvState,
    after: EnvState,
    laid: Map<Seq<char>, Seq<u8>>,
    found: Seq<EntryModel>,
    present: Seq<Seq<char>>,
    root: Seq<char>,
)
    requires
        mounted(before, root),
        installs(before, after, laid, found, present, root),
    ensures
        mounted(after, root),
        forall|path: Seq<char>|
            names(before.index, path) && present.contains(path) ==> #[trigger] names(
                after.index,
                path,
            ),
{
    let files = before.files.union_prefer_right(laid);
    let (p, q) = (sentinel(), encode_utf8(root));
    let len = found.len() as int;
    let kept = staying(before.index, found, present);
    lemma_upkept_once(before.index, found, present);
    lemma_staying(before.index, found, present, Seq::empty());
    assert forall|j: int| 0 <= j < after.index.len() implies carries(
        after,
        #[trigger] after.index[j],
        root,
    ) by {
        let e = after.index[j];
        if j < kept.len() {
            assert(e == kept[j]);
            let i = choose|i: int| 0 <= i < before.index.len() && before.index[i] == e;
            assert(carries(before, before.index[i], root));
            assert(present.contains(e.path));
            assert forall|k: int| 0 <= k < len implies (#[trigger] found[k]).path != e.path by {
                if found[k].path == e.path {
                    assert(names(found, e.path));
                }
            }
            law_other_files_kept(files, found, p, q, len, e.path);
        } else {
            let k = j - kept.len();
            assert(e == found[k]);
            assert(names(found, e.path));
            lemma_file_patched(files, found, p, q, len, k);
            assert(entry_problem(files, found[k], p, q) is None);
            if e.kind == FileKind::Binary {
                law_scanned_strings_are_apart(files[e.path], e.slots);
            }
        }
    }
    assert forall|path: Seq<char>|
        names(before.index, path) && present.contains(path) implies #[trigger] names(
        after.index,
        path,
    ) by {
        law_index_keeps_what_is_there(before.index, found, present, path);
    }
}

/// After an uninstall every file that is still in the index carries `root`.
pub proof fn law_uninstall_keeps_the_rest_mounted(
    before: EnvState,
    after: EnvState,
    present: Seq<Seq<char>>,
    root: Seq<char>,
)
    requires
        mounted(before, root),
        uninstalls(before, after, present),
    ensures
        mounted(after, root),
{
    let none = Seq::<EntryModel>::empty();
    let kept = staying(before.index, none, present);
    assert(after.index =~= kept);
    lemma_staying(before.index, none, present, Seq::empty());
    assert forall|j: int| 0 <= j < after.index.len() implies carries(
        after,
        #[trigger] after.index[j],
        root,
    ) by {
        let e = kept[j];
        let i = choose|i: int| 0 <= i < before.index.len() && before.index[i] == e;
        assert(carries(before, before.index[i], root));
        assert(present.contains(e.path));
    }
}

proof fn lemma_stays_mounted(states: Seq<EnvState>, root: Seq<char>)
    requires
        states.len() > 0,
        mounted(states[0], root),
        forall|k: int|
            0 <= k < states.len() - 1 ==> steps(#[trigger] states[k], states[k + 1], root),
    ensures
        mounted(states.last(), root),
    decreases states.len(),
{
    if states.len() > 1 {
        let rest = states.drop_last();
        assert forall|k: int| 0 <= k < rest.len() - 1 implies steps(
            #[trigger] rest[k],
            rest[k + 1],
            root,
        ) by {
            assert(rest[k] == states[k] && rest[k + 1] == states[k + 1]);
        }
        lemma_stays_mounted(rest, root);
        let a = states[states.len() - 2];
        let b = states[states.len() - 1];
        assert(rest.last() == a);
        assert(steps(states[states.len() - 2], states[states.len() - 2 + 1], root));
        if exists|
            laid: Map<Seq<char>, Seq<u8>>,
            found: Seq<EntryModel>,
            present: Seq<Seq<char>>,
        |
            installs(a, b, laid, found, present, root) {
            let (laid, found, present) = choose|
                laid: Map<Seq<char>, Seq<u8>>,
                found: Seq<EntryModel>,
                present: Seq<Seq<char>>,
            |
                installs(a, b, laid, found, present, root);
            law_install_keeps_the_rest_mounted(a, b, laid, found, present, root);
        } else {
            let present = choose|present: Seq<Seq<char>>| uninstalls(a, b, present);
            law_uninstall_keeps_the_rest_mounted(a, b, present, root);
        }
    }
}

/// The entry's file can be moved from `root` to `new`: a text holds `root` only
/// where it was put, and a binary file has room for `new`.
pub open spec fn moves_to(
    data: Seq<u8>,
    e: EntryModel,
    root: Seq<char>,
    new: Seq<char>,
) -> bool {
    &&& mountable(data, e, new)
    &&& moves_on(data, e, sentinel(), encode_utf8(root))
}

/// A moved env keeps working: after any sequence of installs and uninstalls at
/// `root`, relocating the env to `new` succeeds, and then every file in the index
/// holds what it would hold had it been installed at `new`.
pub proof fn law_moved_env_keeps_working(
    states: Seq<EnvState>,
    root: Seq<char>,
    new: Seq<char>,
    before: TreeModel,
    after: TreeModel,
    r: Result<(), RelocateError>,
)
    requires
        states.len() > 0,
        mounted(states[0], root),
        forall|k: int|
            0 <= k < states.len() - 1 ==> steps(#[trigger] states[k], states[k + 1], root),
        before.files == states.last().files,
        root != new,
        relocates(before, states.last().index, root, new, after, r),
        forall|j: int|
            0 <= j < states.last().index.len() ==> moves_to(
                states.last().pristine[(#[trigger] states.last().index[j]).path],
                states.last().index[j],
                root,
                new,
            ),
    ensures
        r is Ok,
        mounted(EnvState { files: after.files, ..states.last() }, new),
{
    let s = states.last();
    let (x, y) = (encode_utf8(root), encode_utf8(new));
    let len = s.index.len() as int;
    lemma_stays_mounted(states, root);
    assert forall|j: int| 0 <= j < len implies entry_problem(
        before.files,
        #[trigger] s.index[j],
        x,
        y,
    ) is None && before.files.contains_key(s.index[j].path) && patched_data(
        before.files[s.index[j].path],
        s.index[j],
        x,
        y,
    ) == patched_data(s.pristine[s.index[j].path], s.index[j], sentinel(), y) by {
        let e = s.index[j];
        let data = s.pristine[e.path];
        assert(carries(s, s.index[j], root));
        assert(moves_to(data, e, root, new));
        match e.kind {
            FileKind::Text => law_text_moves_compose(data, sentinel(), x, y),
            FileKind::Binary => law_binary_moves_compose(data, patches(e.slots), sentinel(), x, y),
        }
    }
    lemma_all_patchable(before.files, s.index, x, y);
    assert(r is Ok);
    let end = EnvState { files: after.files, ..s };
    assert forall|j: int| 0 <= j < len implies carries(end, #[trigger] end.index[j], new) by {
        lemma_file_patched(before.files, s.index, x, y, len, j);
        assert(carries(s, s.index[j], root));
        assert(moves_to(s.pristine[s.index[j].path], s.index[j], root, new));
    }
}

/// What an index says is what each of its entries says, in order: its path, its
/// kind and all its slots.
pub proof fn law_index_says_all(index: RelocateIndex, i: int)
    ensures
        index@.len() == index.entries@.len(),
        0 <= i < index.entries@.len() ==> index@[i].path == index.entries@[i].path@
            && index@[i].kind == index.entries@[i].kind && index@[i].slots == index.entries@[i].binary_slots@,
{
}

/// The index that is kept has everything that was found, at its end and as it was
/// found, and of what it had before every entry of a file that is there and was
/// not found anew.
pub proof fn law_index_keeps_entries(
    old: Seq<EntryModel>,
    found: Seq<EntryModel>,
    present: Seq<Seq<char>>,
    i: int,
)
    requires
        one_each(old),
        0 <= i < old.len(),
    ensures
        found.is_suffix_of(upkept(old, found, present)),
        present.contains(old[i].path) && (forall|j: int|
            0 <= j < found.len() ==> (#[trigger] found[j]).path != old[i].path) ==> upkept(
            old,
            found,
            present,
        ).contains(old[i]),
        (exists|j: int| 0 <= j < found.len() && (#[trigger] found[j]).path == old[i].path)
            || !present.contains(old[i].path) ==> !staying(old, found, present).contains(old[i]),
{
    let kept = staying(old, found, present);
    let all = upkept(old, found, present);
    assert(found =~= all.subrange(all.len() - found.len(), all.len() as int));
    lemma_staying(old, found, present, old[i].path);
    if present.contains(old[i].path) && !names(found, old[i].path) {
        assert(names(old, old[i].path));
        let j = choose|j: int| 0 <= j < kept.len() && (#[trigger] kept[j]).path == old[i].path;
        let k = choose|k: int| 0 <= k < old.len() && old[k] == kept[j];
        assert(k == i) by {
            if k < i {
                assert(old[k].path != old[i].path);
            } else if i < k {
                assert(old[i].path != old[k].path);
            }
        }
        assert(all[j] == old[i]);
    }
    if kept.contains(old[i]) {
        let j = choose|j: int| 0 <= j < kept.len() && kept[j] == old[i];
        assert(present.contains(kept[j].path) && !names(found, kept[j].path));
    }
}

/// A file that cannot be patched is told with its place: which slot, why, and of a
/// prefix that is too long how much it needs and how much there is.
pub proof fn law_patch_errors_are_told(e: EntryModel, i: usize, needed: u128, file: Seq<char>)
    requires
        i < e.slots.len(),
    ensures
        file_error_text(FileError::Missing, e, file) == "no such file: "@ + file,
        file_error_text(FileError::Slot { slot: i, error: SlotError::OutOfRange }, e, file)
            == "slot at offset "@ + digits(e.slots[i as int].offset as nat)
            + " lies beyond the end of "@ + file,
        file_error_text(FileError::Slot { slot: i, error: SlotError::Mismatch }, e, file)
            == "slot at offset "@ + digits(e.slots[i as int].offset as nat) + " in "@ + file
            + " no longer starts with the expected previous prefix \u{2014} env state inconsistent"@,
        file_error_text(FileError::Slot { slot: i, error: SlotError::TooLong { needed } }, e, file)
            == "new prefix + suffix ("@ + digits(needed as nat) + " bytes) exceeds slot of "@
            + digits(e.slots[i as int].slot_len as nat) + " bytes at offset "@ + digits(
            e.slots[i as int].offset as nat,
        ) + " in "@ + file + " \u{2014} env not relocatable to this path"@,
{
}

} // verus!
