//! The manifest: the store's ledger of which sorted tables exist at which
//! level. In memory it is rebuilt by applying change sets in order; on disk
//! it is a magic header followed by length-prefixed, checksummed change
//! sets.

use vstd::prelude::*;

use vstd::slice::slice_subrange;

use crate::checksum::{crc32c, crc32c_of};
use crate::codec::{
    extend_from, get_varint, is_varint_at, lemma_varint_at_some, lemma_varint_embed,
    lemma_varint_roundtrip, put_u16_be, put_u32_be, put_varint, read_u16_be, read_u32_be,
    u16_be_bytes, u16_of_be, u32_be_bytes, u32_of_be, varint_at, varint_bytes, varint_value,
};
use crate::error::Error;

verus! {

/// The first four bytes of a manifest file.
pub open spec fn magic_text() -> Seq<u8> {
    seq![0x42u8, 0x64u8, 0x67u8, 0x72u8]
}

/// The manifest format version this store writes and reads.
pub const BADGER_MAGIC_VERSION: u16 = 8;

/// What the manifest records about one table.
#[derive(Clone, Copy, Debug, PartialEq, Eq, Structural)]
pub struct TableManifest {
    pub level: u8,
    pub key_id: u64,
}

/// The table ids of one level.
#[derive(Debug)]
pub struct LevelManifest {
    pub tables: Vec<u64>,
}

/// A single recorded change: a table created at a level, or deleted.
#[derive(Clone, Copy, Debug, PartialEq, Eq, Structural)]
pub enum ManifestOp {
    Create,
    Delete,
}

/// One manifest change.
#[derive(Clone, Copy, Debug, PartialEq, Eq, Structural)]
pub struct ManifestChange {
    pub id: u64,
    pub op: ManifestOp,
    pub level: u32,
    pub key_id: u64,
}

/// A create change for `id` at `level`.
pub fn new_create_change(id: u64, level: u32, key_id: u64) -> (r: ManifestChange)
    ensures
        r == (ManifestChange { id, op: ManifestOp::Create, level, key_id }),
{
    ManifestChange { id, op: ManifestOp::Create, level, key_id }
}

/// The in-memory manifest.
#[derive(Debug)]
pub struct Manifest {
    pub levels: Vec<LevelManifest>,
    pub tables: Vec<(u64, TableManifest)>,
    pub creations: u32,
    pub deletions: u32,
}

/// The mathematical content of a manifest.
#[verifier::ext_equal]
pub ghost struct ManifestModel {
    pub tables: Seq<(u64, TableManifest)>,
    pub levels: Seq<Seq<u64>>,
    pub creations: int,
    pub deletions: int,
}

/// Whether some table in the list has this id.
pub open spec fn has_fid(tables: Seq<(u64, TableManifest)>, id: u64) -> bool {
    exists|i: int| 0 <= i < tables.len() && tables[i].0 == id
}

/// The first position of `id` in the table list, or `-1`.
pub open spec fn fid_index(tables: Seq<(u64, TableManifest)>, id: u64) -> int
    decreases tables.len(),
{
    if tables.len() == 0 {
        -1
    } else if tables[0].0 == id {
        0
    } else {
        let r = fid_index(tables.drop_first(), id);
        if r < 0 {
            -1
        } else {
            1 + r
        }
    }
}

/// `fid_index` finds the first occurrence exactly when one exists.
pub proof fn lemma_fid_index(tables: Seq<(u64, TableManifest)>, id: u64)
    ensures
        has_fid(tables, id) ==> {
            let r = fid_index(tables, id);
            &&& 0 <= r < tables.len()
            &&& tables[r].0 == id
            &&& forall|j: int| 0 <= j < r ==> (#[trigger] tables[j]).0 != id
        },
        !has_fid(tables, id) ==> fid_index(tables, id) == -1,
    decreases tables.len(),
{
    if tables.len() > 0 {
        lemma_fid_index(tables.drop_first(), id);
        if tables[0].0 != id {
            if has_fid(tables, id) {
                let w = choose|i: int| 0 <= i < tables.len() && tables[i].0 == id;
                assert(tables.drop_first()[w - 1].0 == id);
            }
            if has_fid(tables.drop_first(), id) {
                let r2 = fid_index(tables.drop_first(), id);
                assert(tables[r2 + 1].0 == id);
                assert forall|j: int| 0 <= j < r2 + 1 implies (#[trigger] tables[j]).0 != id by {
                    if j >= 1 {
                        assert(tables.drop_first()[j - 1] == tables[j]);
                    }
                }
            }
        }
    }
}

/// The level list grown with empty levels until it has at least `n` levels.
pub open spec fn extend_levels(levels: Seq<Seq<u64>>, n: int) -> Seq<Seq<u64>> {
    if levels.len() >= n {
        levels
    } else {
        levels + Seq::new((n - levels.len()) as nat, |i: int| Seq::<u64>::empty())
    }
}

/// Applying one change to the manifest's content; `None` when the change is
/// inadmissible: a create for an id that exists or a level past 255, or a
/// delete for an id that does not exist.
pub open spec fn spec_apply_change(m: ManifestModel, c: ManifestChange) -> Option<ManifestModel> {
    match c.op {
        ManifestOp::Create => {
            if has_fid(m.tables, c.id) || c.level > 255 {
                None
            } else {
                let levels = extend_levels(m.levels, c.level + 1);
                Some(
                    ManifestModel {
                        tables: m.tables.push(
                            (c.id, TableManifest { level: c.level as u8, key_id: c.key_id }),
                        ),
                        levels: levels.update(c.level as int, levels[c.level as int].push(c.id)),
                        creations: m.creations + 1,
                        deletions: m.deletions,
                    },
                )
            }
        },
        ManifestOp::Delete => {
            if !has_fid(m.tables, c.id) {
                None
            } else {
                let i = fid_index(m.tables, c.id);
                let tm = m.tables[i].1;
                let levels = if tm.level < m.levels.len() {
                    m.levels.update(tm.level as int, m.levels[tm.level as int].remove_value(c.id))
                } else {
                    m.levels
                };
                Some(
                    ManifestModel {
                        tables: m.tables.remove(i),
                        levels,
                        creations: m.creations,
                        deletions: m.deletions + 1,
                    },
                )
            }
        },
    }
}

/// Applying a list of changes in order; `None` as soon as one is
/// inadmissible.
pub open spec fn spec_apply_changes(m: ManifestModel, cs: Seq<ManifestChange>) -> Option<
    ManifestModel,
>
    decreases cs.len(),
{
    if cs.len() == 0 {
        Some(m)
    } else {
        match spec_apply_change(m, cs[0]) {
            None => None,
            Some(m2) => spec_apply_changes(m2, cs.drop_first()),
        }
    }
}

/// The error an inadmissible change is refused with.
pub open spec fn spec_apply_error(m: ManifestModel, c: ManifestChange) -> Error {
    match c.op {
        ManifestOp::Create => if has_fid(m.tables, c.id) {
            Error::ManifestTableExists(c.id)
        } else {
            Error::InvalidRequest
        },
        ManifestOp::Delete => Error::ManifestTableAbsent(c.id),
    }
}

/// The first inadmissible change's error along a list; meaningful only
/// when applying the list fails.
pub open spec fn spec_apply_changes_err(m: ManifestModel, cs: Seq<ManifestChange>) -> Error
    decreases cs.len(),
{
    if cs.len() == 0 {
        Error::InvalidRequest
    } else {
        match spec_apply_change(m, cs[0]) {
            None => spec_apply_error(m, cs[0]),
            Some(m2) => spec_apply_changes_err(m2, cs.drop_first()),
        }
    }
}

/// Whether appending to the change log should give way to a rewrite:
/// the recorded deletions pass the given floor and outnumber the live
/// content (creations less deletions) by the given ratio.
pub fn should_rewrite_manifest(m: &Manifest, deletions_floor: u32, deletions_ratio: u32) -> (r:
    bool)
    ensures
        r == (m@.deletions > deletions_floor && m@.deletions > deletions_ratio * (m@.creations
            - m@.deletions)),
{
    let live: i128 = m.creations as i128 - m.deletions as i128;
    proof {
        let gl: int = live as int;
        let gr: int = deletions_ratio as int;
        assert(gr * gl < 0x1_0000_0000_0000_0000 && gr * gl > -0x1_0000_0000_0000_0000)
            by (nonlinear_arith)
            requires
                0 <= gr,
                gr < 0x1_0000_0000,
                gl > -0x1_0000_0000,
                gl < 0x1_0000_0000,
        ;
    }
    let prod: i128 = deletions_ratio as i128 * live;
    m.deletions as i128 > deletions_floor as i128 && m.deletions as i128 > prod
}

impl Manifest {
    /// The manifest's mathematical content.
    pub open spec fn view(&self) -> ManifestModel {
        ManifestModel {
            tables: self.tables@,
            levels: Seq::new(self.levels@.len(), |i: int| self.levels@[i].tables@),
            creations: self.creations as int,
            deletions: self.deletions as int,
        }
    }

    /// The empty manifest.
    pub fn new() -> (r: Manifest)
        ensures
            r@.tables.len() == 0,
            r@.levels.len() == 0,
            r@.creations == 0,
            r@.deletions == 0,
    {
        Manifest { levels: Vec::new(), tables: Vec::new(), creations: 0, deletions: 0 }
    }

    /// The create changes that would rebuild exactly this manifest's table
    /// list, in the order the list holds them.
    pub fn as_changes(&self) -> (r: Vec<ManifestChange>)
        ensures
            r@.len() == self@.tables.len(),
            forall|i: int|
                0 <= i < r@.len() ==> #[trigger] r@[i] == (ManifestChange {
                    id: self@.tables[i].0,
                    op: ManifestOp::Create,
                    level: self@.tables[i].1.level as u32,
                    key_id: self@.tables[i].1.key_id,
                }),
    {
        let mut changes: Vec<ManifestChange> = Vec::new();
        let mut i: usize = 0;
        while i < self.tables.len()
            invariant
                i <= self.tables@.len(),
                changes@.len() == i,
                forall|j: int|
                    0 <= j < i ==> #[trigger] changes@[j] == (ManifestChange {
                        id: self.tables@[j].0,
                        op: ManifestOp::Create,
                        level: self.tables@[j].1.level as u32,
                        key_id: self.tables@[j].1.key_id,
                    }),
            decreases self.tables@.len() - i,
        {
            let (id, tm) = self.tables[i];
            changes.push(new_create_change(id, tm.level as u32, tm.key_id));
            i = i + 1;
        }
        changes
    }
}

/// Finds the first position holding `id` in the table list.
fn find_fid(tables: &Vec<(u64, TableManifest)>, id: u64) -> (r: Option<usize>)
    ensures
        match r {
            Some(i) => i < tables@.len() && tables@[i as int].0 == id && forall|j: int|
                0 <= j < i ==> (#[trigger] tables@[j]).0 != id,
            None => !has_fid(tables@, id),
        },
{
    let mut i: usize = 0;
    while i < tables.len()
        invariant
            i <= tables@.len(),
            forall|j: int| 0 <= j < i ==> (#[trigger] tables@[j]).0 != id,
        decreases tables@.len() - i,
    {
        if tables[i].0 == id {
            return Some(i);
        }
        i = i + 1;
    }
    None
}

/// Finds the first position holding `x`.
fn find_u64(v: &Vec<u64>, x: u64) -> (r: Option<usize>)
    ensures
        match r {
            Some(i) => i < v@.len() && v@[i as int] == x && forall|j: int|
                0 <= j < i ==> v@[j] != x,
            None => !v@.contains(x),
        },
{
    let mut i: usize = 0;
    while i < v.len()
        invariant
            i <= v@.len(),
            forall|j: int| 0 <= j < i ==> v@[j] != x,
        decreases v@.len() - i,
    {
        if v[i] == x {
            return Some(i);
        }
        i = i + 1;
    }
    None
}

/// Applies one change to the manifest. `Ok` exactly when the change is
/// admissible; the manifest then holds the applied content, and an error
/// leaves it unchanged.
pub fn apply_manifest_change(mf: &mut Manifest, change: ManifestChange) -> (r: Result<(), Error>)
    requires
        old(mf).creations < 0xffff_ffff,
        old(mf).deletions < 0xffff_ffff,
        old(mf).levels@.len() <= 256,
    ensures
        match r {
            Ok(()) => spec_apply_change(old(mf)@, change) == Some(final(mf)@),
            Err(e) => {
                &&& spec_apply_change(old(mf)@, change) is None
                &&& final(mf)@ == old(mf)@
                &&& match change.op {
                    ManifestOp::Create => e == if has_fid(old(mf)@.tables, change.id) {
                        Error::ManifestTableExists(change.id)
                    } else {
                        Error::InvalidRequest
                    },
                    ManifestOp::Delete => e == Error::ManifestTableAbsent(change.id),
                }
            },
        },
        final(mf).levels@.len() <= 256,
        final(mf).creations <= old(mf).creations + 1,
        final(mf).deletions <= old(mf).deletions + 1,
        final(mf).creations + final(mf).deletions <= old(mf).creations + old(mf).deletions + 1,
{
    match change.op {
        ManifestOp::Create => {
            if let Some(_) = find_fid(&mf.tables, change.id) {
                return Err(Error::ManifestTableExists(change.id));
            }
            if change.level > 255 {
                return Err(Error::InvalidRequest);
            }
            let target = (change.level as usize) + 1;
            let ghost pre_levels = extend_levels(old(mf)@.levels, change.level + 1);
            while mf.levels.len() < target
                invariant
                    target <= 256,
                    mf.tables == old(mf).tables,
                    mf.creations == old(mf).creations,
                    mf.deletions == old(mf).deletions,
                    old(mf)@.levels.len() <= mf@.levels.len(),
                    mf@.levels.len() <= target || mf@.levels.len() == old(mf)@.levels.len(),
                    mf@.levels == extend_levels(old(mf)@.levels, mf@.levels.len() as int),
                decreases target - mf.levels@.len(),
            {
                let ghost prev_vec = mf.levels@;
                let ghost prev_view = mf@.levels;
                mf.levels.push(LevelManifest { tables: Vec::new() });
                proof {
                    assert forall|i: int| 0 <= i < prev_view.len() implies mf@.levels[i]
                        == prev_view[i] by {
                        assert(mf.levels@[i] == prev_vec[i]);
                    }
                    assert(mf@.levels[prev_view.len() as int] =~= Seq::<u64>::empty());
                    let tgt = extend_levels(old(mf)@.levels, mf@.levels.len() as int);
                    assert(mf@.levels.len() == tgt.len());
                    assert forall|i: int| 0 <= i < prev_view.len() implies tgt[i]
                        == prev_view[i] by {
                        assert(prev_view == extend_levels(
                            old(mf)@.levels,
                            prev_view.len() as int,
                        ));
                    }
                    assert(tgt[prev_view.len() as int] == Seq::<u64>::empty());
                    assert forall|i: int| 0 <= i < mf@.levels.len() implies mf@.levels[i]
                        == tgt[i] by {}
                    assert(mf@.levels =~~= tgt);
                }
            }
            proof {
                assert(mf@.levels =~~= pre_levels);
            }
            mf.tables.push(
                (change.id, TableManifest { level: change.level as u8, key_id: change.key_id }),
            );
            let lvl = change.level as usize;
            let mut lm = mf.levels.remove(lvl);
            lm.tables.push(change.id);
            mf.levels.insert(lvl, lm);
            mf.creations = mf.creations + 1;
            proof {
                assert(mf@.levels =~~= pre_levels.update(
                    change.level as int,
                    pre_levels[change.level as int].push(change.id),
                ));
            }
            Ok(())
        },
        ManifestOp::Delete => {
            let idx = match find_fid(&mf.tables, change.id) {
                Some(i) => i,
                None => {
                    return Err(Error::ManifestTableAbsent(change.id));
                },
            };
            proof {
                lemma_fid_index(old(mf)@.tables, change.id);
            }
            let tm = mf.tables[idx].1;
            mf.tables.remove(idx);
            let lvl = tm.level as usize;
            if lvl < mf.levels.len() {
                let ghost pre = mf@.levels;
                let mut lm = mf.levels.remove(lvl);
                let ghost lseq = lm.tables@;
                match find_u64(&lm.tables, change.id) {
                    Some(j) => {
                        lm.tables.remove(j);
                        proof {
                            lseq.index_of_first_ensures(change.id);
                            assert(lm.tables@ =~= lseq.remove_value(change.id));
                        }
                    },
                    None => {
                        proof {
                            lseq.index_of_first_ensures(change.id);
                        }
                    },
                }
                mf.levels.insert(lvl, lm);
                proof {
                    assert(mf@.levels =~~= pre.update(lvl as int, lseq.remove_value(change.id)));
                }
            }
            mf.deletions = mf.deletions + 1;
            Ok(())
        },
    }
}

/// Applies every change of a set in order; on the first inadmissible change
/// the changes before it stay applied and its error is returned.
pub fn apply_change_set(mf: &mut Manifest, cs: &Vec<ManifestChange>) -> (r: Result<(), Error>)
    requires
        old(mf).creations + cs@.len() < 0xffff_ffff,
        old(mf).deletions + cs@.len() < 0xffff_ffff,
        old(mf).levels@.len() <= 256,
    ensures
        match r {
            Ok(()) => spec_apply_changes(old(mf)@, cs@) == Some(final(mf)@),
            Err(e) => spec_apply_changes(old(mf)@, cs@) is None && e == spec_apply_changes_err(
                old(mf)@,
                cs@,
            ),
        },
        final(mf).levels@.len() <= 256,
        final(mf).creations <= old(mf).creations + cs@.len(),
        final(mf).deletions <= old(mf).deletions + cs@.len(),
        final(mf).creations + final(mf).deletions <= old(mf).creations + old(mf).deletions
            + cs@.len(),
{
    let mut i: usize = 0;
    proof {
        assert(cs@.skip(0) =~= cs@);
    }
    while i < cs.len()
        invariant
            i <= cs@.len(),
            old(mf).creations + cs@.len() < 0xffff_ffff,
            old(mf).deletions + cs@.len() < 0xffff_ffff,
            mf.creations <= old(mf).creations + i,
            mf.deletions <= old(mf).deletions + i,
            mf.creations + mf.deletions <= old(mf).creations + old(mf).deletions + i,
            mf.levels@.len() <= 256,
            spec_apply_changes(old(mf)@, cs@) == spec_apply_changes(mf@, cs@.skip(i as int)),
            spec_apply_changes(old(mf)@, cs@) is None ==> spec_apply_changes_err(old(mf)@, cs@)
                == spec_apply_changes_err(mf@, cs@.skip(i as int)),
        decreases cs@.len() - i,
    {
        let ghost pre = mf@;
        let ghost rest = cs@.skip(i as int);
        proof {
            assert(rest[0] == cs@[i as int]);
            assert(rest.drop_first() =~= cs@.skip(i + 1));
        }
        match apply_manifest_change(mf, cs[i]) {
            Ok(()) => {},
            Err(e) => {
                return Err(e);
            },
        }
        i = i + 1;
    }
    proof {
        assert(cs@.skip(cs@.len() as int) =~= Seq::<ManifestChange>::empty());
    }
    Ok(())
}

// ---------------------------------------------------------------------------
// Stored form: protobuf wire format. A change set is a message holding one
// length-delimited record per change (field one); a change is a message of
// varint fields: id (one), operation (two), level (three) and key id
// (four), each omitted when its value is zero, as proto3 writes defaults.
// Unknown fields are skipped by wire type when reading.
// ---------------------------------------------------------------------------

/// The varint value a change's operation is stored as.
pub open spec fn op_value(op: ManifestOp) -> u64 {
    match op {
        ManifestOp::Create => 0,
        ManifestOp::Delete => 1,
    }
}

/// A varint-typed field: its single tag byte, then the value; omitted
/// entirely when the value is zero.
pub open spec fn pb_uint_field(field: u64, v: u64) -> Seq<u8>
    recommends
        1 <= field <= 15,
{
    if v == 0 {
        Seq::empty()
    } else {
        seq![(field * 8) as u8] + varint_bytes(v as nat)
    }
}

/// The stored body of one change.
pub open spec fn change_bytes(c: ManifestChange) -> Seq<u8> {
    pb_uint_field(1, c.id) + pb_uint_field(2, op_value(c.op)) + pb_uint_field(3, c.level as u64)
        + pb_uint_field(4, c.key_id)
}

/// One change's record inside a change set: field one, length-delimited.
pub open spec fn change_record(c: ManifestChange) -> Seq<u8> {
    seq![0x0au8] + varint_bytes(change_bytes(c).len()) + change_bytes(c)
}

/// The stored form of a change set: the records in order.
pub open spec fn change_set_bytes(cs: Seq<ManifestChange>) -> Seq<u8>
    decreases cs.len(),
{
    if cs.len() == 0 {
        Seq::empty()
    } else {
        change_record(cs[0]) + change_set_bytes(cs.drop_first())
    }
}

/// Appending a change appends its record to the stored form.
proof fn lemma_change_set_bytes_push(cs: Seq<ManifestChange>, c: ManifestChange)
    ensures
        change_set_bytes(cs.push(c)) == change_set_bytes(cs) + change_record(c),
    decreases cs.len(),
{
    if cs.len() == 0 {
        assert(cs.push(c)[0] == c);
        assert(cs.push(c).drop_first() =~= Seq::<ManifestChange>::empty());
        assert(change_set_bytes(cs.push(c)) == change_record(c) + change_set_bytes(
            Seq::<ManifestChange>::empty()));
        assert(change_set_bytes(cs.push(c)) =~= change_set_bytes(cs) + change_record(c));
    } else {
        assert(cs.push(c)[0] == cs[0]);
        assert(cs.push(c).drop_first() =~= cs.drop_first().push(c));
        assert(change_set_bytes(cs.push(c)) == change_record(cs[0]) + change_set_bytes(
            cs.drop_first().push(c)));
        lemma_change_set_bytes_push(cs.drop_first(), c);
        let lhs = change_record(cs[0]) + (change_set_bytes(cs.drop_first()) + change_record(c));
        let rhs = (change_record(cs[0]) + change_set_bytes(cs.drop_first())) + change_record(c);
        assert(lhs =~= rhs);
        assert(change_set_bytes(cs.push(c)) == lhs);
        assert(change_set_bytes(cs) == change_record(cs[0]) + change_set_bytes(cs.drop_first()));
    }
}

/// A change message with every field left at its default.
pub open spec fn default_change() -> ManifestChange {
    ManifestChange { id: 0, op: ManifestOp::Create, level: 0, key_id: 0 }
}

/// One parsed varint field assigned into a change; unknown field numbers
/// change nothing, and an unknown operation value reads as the default.
pub open spec fn set_change_field(c: ManifestChange, field: u64, v: u64) -> ManifestChange {
    if field == 1 {
        ManifestChange { id: v, ..c }
    } else if field == 2 {
        ManifestChange {
            op: if v == 1 {
                ManifestOp::Delete
            } else {
                ManifestOp::Create
            },
            ..c
        }
    } else if field == 3 {
        ManifestChange { level: v as u32, ..c }
    } else if field == 4 {
        ManifestChange { key_id: v, ..c }
    } else {
        c
    }
}

/// Parsing a change message's fields from `pos`: a tag varint, then the
/// payload by wire type, unknown fields skipped. `None` when a varint is
/// malformed, a payload runs past the end, a level overflows 32 bits, or
/// the wire type is unknown.
pub open spec fn spec_parse_change_fields(s: Seq<u8>, pos: int, acc: ManifestChange) -> Option<
    ManifestChange,
>
    decreases s.len() - pos when 0 <= pos <= s.len()
{
    if pos == s.len() {
        Some(acc)
    } else {
        match varint_at(s, pos) {
            None => None,
            Some((tag, n)) => {
                let wire = tag % 8;
                let field = (tag / 8) as u64;
                if wire == 0 {
                    match varint_at(s, pos + n) {
                        None => None,
                        Some((v, n2)) => {
                            if field == 3 && v > 0xffff_ffff {
                                None
                            } else {
                                spec_parse_change_fields(
                                    s,
                                    pos + n + n2,
                                    set_change_field(acc, field, v as u64),
                                )
                            }
                        },
                    }
                } else if wire == 2 {
                    match varint_at(s, pos + n) {
                        None => None,
                        Some((l, n2)) => {
                            if pos + n + n2 + l <= s.len() {
                                spec_parse_change_fields(s, pos + n + n2 + l, acc)
                            } else {
                                None
                            }
                        },
                    }
                } else if wire == 1 {
                    if pos + n + 8 <= s.len() {
                        spec_parse_change_fields(s, pos + n + 8, acc)
                    } else {
                        None
                    }
                } else if wire == 5 {
                    if pos + n + 4 <= s.len() {
                        spec_parse_change_fields(s, pos + n + 4, acc)
                    } else {
                        None
                    }
                } else {
                    None
                }
            },
        }
    }
}

/// What a whole change message parses to.
pub open spec fn spec_parse_change(s: Seq<u8>) -> Option<ManifestChange> {
    spec_parse_change_fields(s, 0, default_change())
}

/// Parsing a change set's records from `pos`: every record of field one
/// adds its change, other fields are skipped by wire type.
pub open spec fn spec_parse_records(s: Seq<u8>, pos: int, acc: Seq<ManifestChange>) -> Option<
    Seq<ManifestChange>,
>
    decreases s.len() - pos when 0 <= pos <= s.len()
{
    if pos == s.len() {
        Some(acc)
    } else {
        match varint_at(s, pos) {
            None => None,
            Some((tag, n)) => {
                let wire = tag % 8;
                if tag == 10 {
                    match varint_at(s, pos + n) {
                        None => None,
                        Some((l, n2)) => {
                            if pos + n + n2 + l <= s.len() {
                                match spec_parse_change(
                                    s.subrange(pos + n + n2, pos + n + n2 + l),
                                ) {
                                    None => None,
                                    Some(c) => spec_parse_records(s, pos + n + n2 + l, acc.push(c)),
                                }
                            } else {
                                None
                            }
                        },
                    }
                } else if wire == 0 {
                    match varint_at(s, pos + n) {
                        None => None,
                        Some((v, n2)) => spec_parse_records(s, pos + n + n2, acc),
                    }
                } else if wire == 2 {
                    match varint_at(s, pos + n) {
                        None => None,
                        Some((l, n2)) => {
                            if pos + n + n2 + l <= s.len() {
                                spec_parse_records(s, pos + n + n2 + l, acc)
                            } else {
                                None
                            }
                        },
                    }
                } else if wire == 1 {
                    if pos + n + 8 <= s.len() {
                        spec_parse_records(s, pos + n + 8, acc)
                    } else {
                        None
                    }
                } else if wire == 5 {
                    if pos + n + 4 <= s.len() {
                        spec_parse_records(s, pos + n + 4, acc)
                    } else {
                        None
                    }
                } else {
                    None
                }
            },
        }
    }
}

/// What a whole change-set message parses to.
pub open spec fn spec_parse_change_set(s: Seq<u8>) -> Option<Seq<ManifestChange>> {
    spec_parse_records(s, 0, Seq::empty())
}

/// Encodes a change-set body.
#[verifier::rlimit(100)]
#[verifier::spinoff_prover]
pub fn encode_change_set(cs: &Vec<ManifestChange>) -> (r: Vec<u8>)
    ensures
        r@ == change_set_bytes(cs@),
{
    let mut buf: Vec<u8> = Vec::new();
    proof {
        assert(change_set_bytes(cs@.take(0)) =~= Seq::<u8>::empty());
    }
    let mut i: usize = 0;
    while i < cs.len()
        invariant
            i <= cs@.len(),
            buf@ == change_set_bytes(cs@.take(i as int)),
        decreases cs@.len() - i,
    {
        let c = cs[i];
        let mut body: Vec<u8> = Vec::new();
        if c.id != 0 {
            body.push(8);
            put_varint(&mut body, c.id);
        }
        match c.op {
            ManifestOp::Create => {},
            ManifestOp::Delete => {
                body.push(16);
                put_varint(&mut body, 1);
            },
        }
        if c.level != 0 {
            body.push(24);
            put_varint(&mut body, c.level as u64);
        }
        if c.key_id != 0 {
            body.push(32);
            put_varint(&mut body, c.key_id);
        }
        proof {
            assert(body@ =~= change_bytes(c));
        }
        buf.push(0x0a);
        put_varint(&mut buf, body.len() as u64);
        crate::codec::extend_from(&mut buf, body.as_slice());
        proof {
            lemma_change_set_bytes_push(cs@.take(i as int), c);
            assert(cs@.take(i + 1) =~= cs@.take(i as int).push(c));
            assert(buf@ =~= change_set_bytes(cs@.take(i + 1)));
        }
        i = i + 1;
    }
    proof {
        assert(cs@.take(cs@.len() as int) =~= cs@);
    }
    buf
}

/// Parses one change message; exactly `spec_parse_change` of the bytes.
fn decode_change(data: &[u8]) -> (r: Option<ManifestChange>)
    ensures
        r == spec_parse_change(data@),
{
    let dlen = data.len();
    let mut pos: usize = 0;
    let mut acc = ManifestChange { id: 0, op: ManifestOp::Create, level: 0, key_id: 0 };
    proof {
        assert(acc == default_change());
    }
    loop
        invariant
            dlen == data@.len(),
            pos <= dlen,
            spec_parse_change(data@) == spec_parse_change_fields(data@, pos as int, acc),
        decreases dlen - pos,
    {
        if pos == dlen {
            return Some(acc);
        }
        let (tag, n) = match get_varint(data, pos) {
            Some(p) => p,
            None => {
                return None;
            },
        };
        proof {
            lemma_varint_at_some(data@, pos as int, n as int);
        }
        let wire = tag % 8;
        let field = tag / 8;
        if wire == 0 {
            let (v, n2) = match get_varint(data, pos + n) {
                Some(p) => p,
                None => {
                    return None;
                },
            };
            proof {
                lemma_varint_at_some(data@, pos + n, n2 as int);
            }
            if field == 3 && v > 0xffff_ffff {
                return None;
            }
            if field == 1 {
                acc.id = v;
            } else if field == 2 {
                acc.op = if v == 1 {
                    ManifestOp::Delete
                } else {
                    ManifestOp::Create
                };
            } else if field == 3 {
                acc.level = v as u32;
            } else if field == 4 {
                acc.key_id = v;
            }
            pos = pos + n + n2;
        } else if wire == 2 {
            let (l, n2) = match get_varint(data, pos + n) {
                Some(p) => p,
                None => {
                    return None;
                },
            };
            proof {
                lemma_varint_at_some(data@, pos + n, n2 as int);
            }
            if l > (dlen - pos - n - n2) as u64 {
                return None;
            }
            pos = pos + n + n2 + l as usize;
        } else if wire == 1 {
            if dlen - pos - n < 8 {
                return None;
            }
            pos = pos + n + 8;
        } else if wire == 5 {
            if dlen - pos - n < 4 {
                return None;
            }
            pos = pos + n + 4;
        } else {
            return None;
        }
    }
}

/// Parses a whole change-set body; `None` exactly when the bytes are not
/// a well-formed change-set message.
pub fn decode_change_set(data: &[u8]) -> (r: Option<Vec<ManifestChange>>)
    ensures
        match r {
            Some(v) => spec_parse_change_set(data@) == Some(v@),
            None => spec_parse_change_set(data@) is None,
        },
{
    let dlen = data.len();
    let mut pos: usize = 0;
    let mut out: Vec<ManifestChange> = Vec::new();
    proof {
        assert(out@ =~= Seq::<ManifestChange>::empty());
    }
    loop
        invariant
            dlen == data@.len(),
            pos <= dlen,
            spec_parse_change_set(data@) == spec_parse_records(data@, pos as int, out@),
        decreases dlen - pos,
    {
        if pos == dlen {
            return Some(out);
        }
        let (tag, n) = match get_varint(data, pos) {
            Some(p) => p,
            None => {
                return None;
            },
        };
        proof {
            lemma_varint_at_some(data@, pos as int, n as int);
        }
        let wire = tag % 8;
        if tag == 10 {
            let (l, n2) = match get_varint(data, pos + n) {
                Some(p) => p,
                None => {
                    return None;
                },
            };
            proof {
                lemma_varint_at_some(data@, pos + n, n2 as int);
            }
            if l > (dlen - pos - n - n2) as u64 {
                return None;
            }
            let body_start = pos + n + n2;
            let body_end = body_start + l as usize;
            let c = match decode_change(slice_subrange(data, body_start, body_end)) {
                Some(c) => c,
                None => {
                    return None;
                },
            };
            out.push(c);
            pos = body_end;
        } else if wire == 0 {
            let (_v, n2) = match get_varint(data, pos + n) {
                Some(p) => p,
                None => {
                    return None;
                },
            };
            proof {
                lemma_varint_at_some(data@, pos + n, n2 as int);
            }
            pos = pos + n + n2;
        } else if wire == 2 {
            let (l, n2) = match get_varint(data, pos + n) {
                Some(p) => p,
                None => {
                    return None;
                },
            };
            proof {
                lemma_varint_at_some(data@, pos + n, n2 as int);
            }
            if l > (dlen - pos - n - n2) as u64 {
                return None;
            }
            pos = pos + n + n2 + l as usize;
        } else if wire == 1 {
            if dlen - pos - n < 8 {
                return None;
            }
            pos = pos + n + 8;
        } else if wire == 5 {
            if dlen - pos - n < 4 {
                return None;
            }
            pos = pos + n + 4;
        } else {
            return None;
        }
    }
}

/// One encoded field parses as its assignment: with the field's bytes at
/// `pos`, parsing continues past them with the field set; a zero value
/// (no bytes) must already be the accumulator's value.
proof fn lemma_parse_field_step(s: Seq<u8>, pos: int, acc: ManifestChange, field: u64, v: u64)
    requires
        1 <= field <= 4,
        0 <= pos,
        pos + pb_uint_field(field, v).len() <= s.len(),
        s.subrange(pos, pos + pb_uint_field(field, v).len() as int) == pb_uint_field(field, v),
        field == 3 ==> v <= 0xffff_ffff,
        v == 0 ==> set_change_field(acc, field, 0) == acc,
    ensures
        spec_parse_change_fields(s, pos, acc) == spec_parse_change_fields(
            s,
            pos + pb_uint_field(field, v).len() as int,
            set_change_field(acc, field, v),
        ),
{
    if v == 0 {
    } else {
        let fb = pb_uint_field(field, v);
        let sub = s.subrange(pos, pos + fb.len() as int);
        assert forall|k: int| 0 <= k < fb.len() implies s[pos + k] == fb[k] by {
            assert(sub[k] == s[pos + k]);
        }
        lemma_varint_roundtrip(v as nat);
        let vb = varint_bytes(v as nat);
        assert(fb[0] == (field * 8) as u8);
        assert(s[pos + 0] == fb[0]);
        assert(field * 8 < 128);
        assert(is_varint_at(s, pos, 1));
        lemma_varint_at_some(s, pos, 1);
        assert(s.subrange(pos, pos + 1) =~= seq![(field * 8) as u8]);
        assert(varint_value(s.subrange(pos, pos + 1)) == field * 8);
        assert forall|k: int| 0 <= k < vb.len() implies s[pos + 1 + k] == vb[k] by {
            assert(s[pos + (1 + k)] == fb[1 + k]);
            assert(fb[1 + k] == vb[k]);
        }
        assert(s.subrange(pos + 1, pos + 1 + vb.len() as int) =~= vb);
        lemma_varint_embed(s, pos + 1, v as nat);
        assert((field * 8) % 8 == 0 && (field * 8) / 8 == field) by (nonlinear_arith);
        assert(pos < s.len());
    }
}

/// A change's stored body parses back to exactly that change.
#[verifier::rlimit(100)]
#[verifier::spinoff_prover]
proof fn lemma_parse_change_roundtrip(c: ManifestChange)
    ensures
        spec_parse_change(change_bytes(c)) == Some(c),
{
    let s = change_bytes(c);
    let f1 = pb_uint_field(1, c.id);
    let f2 = pb_uint_field(2, op_value(c.op));
    let f3 = pb_uint_field(3, c.level as u64);
    let f4 = pb_uint_field(4, c.key_id);
    let p1 = f1.len() as int;
    let p2 = p1 + f2.len() as int;
    let p3 = p2 + f3.len() as int;
    let p4 = p3 + f4.len() as int;
    assert(s.len() == p4);
    assert(s.subrange(0, p1) =~= f1);
    let a0 = default_change();
    lemma_parse_field_step(s, 0, a0, 1, c.id);
    let a1 = set_change_field(a0, 1, c.id);
    assert(s.subrange(p1, p2) =~= f2);
    lemma_parse_field_step(s, p1, a1, 2, op_value(c.op));
    let a2 = set_change_field(a1, 2, op_value(c.op));
    assert(s.subrange(p2, p3) =~= f3);
    lemma_parse_field_step(s, p2, a2, 3, c.level as u64);
    let a3 = set_change_field(a2, 3, c.level as u64);
    assert(s.subrange(p3, p4) =~= f4);
    lemma_parse_field_step(s, p3, a3, 4, c.key_id);
    let a4 = set_change_field(a3, 4, c.key_id);
    assert(spec_parse_change_fields(s, p4, a4) == Some(a4));
    assert(a4 == c);
}

/// A change set's records, filling a string from `pos` to its end, parse
/// back to exactly those changes after the accumulated prefix.
#[verifier::rlimit(100)]
#[verifier::spinoff_prover]
proof fn lemma_records_embed(cs: Seq<ManifestChange>, s: Seq<u8>, pos: int, acc: Seq<ManifestChange>)
    requires
        0 <= pos,
        pos + change_set_bytes(cs).len() == s.len(),
        s.subrange(pos, s.len() as int) == change_set_bytes(cs),
    ensures
        spec_parse_records(s, pos, acc) == Some(acc + cs),
    decreases cs.len(),
{
    if cs.len() == 0 {
        assert(acc + cs =~= acc);
    } else {
        let c = cs[0];
        let rec = change_record(c);
        let body = change_bytes(c);
        let restb = change_set_bytes(cs.drop_first());
        assert(change_set_bytes(cs) == rec + restb);
        let sub = s.subrange(pos, s.len() as int);
        assert forall|k: int| 0 <= k < change_set_bytes(cs).len() implies s[pos + k]
            == change_set_bytes(cs)[k] by {
            assert(sub[k] == s[pos + k]);
        }
        lemma_varint_roundtrip(c.id as nat);
        lemma_varint_roundtrip(op_value(c.op) as nat);
        lemma_varint_roundtrip(c.level as nat);
        lemma_varint_roundtrip(c.key_id as nat);
        assert(body.len() <= 44);
        lemma_varint_roundtrip(body.len());
        let lb = varint_bytes(body.len());
        let n2 = lb.len() as int;
        assert(rec[0] == 0x0au8);
        assert(s[pos + 0] == change_set_bytes(cs)[0]);
        assert(change_set_bytes(cs)[0] == rec[0]);
        assert(is_varint_at(s, pos, 1));
        lemma_varint_at_some(s, pos, 1);
        assert(s.subrange(pos, pos + 1) =~= seq![0x0au8]);
        assert(varint_value(s.subrange(pos, pos + 1)) == 10);
        assert forall|k: int| 0 <= k < n2 implies s[pos + 1 + k] == lb[k] by {
            assert(s[pos + (1 + k)] == change_set_bytes(cs)[1 + k]);
            assert(change_set_bytes(cs)[1 + k] == rec[1 + k]);
            assert(rec[1 + k] == lb[k]);
        }
        assert(s.subrange(pos + 1, pos + 1 + n2) =~= lb);
        lemma_varint_embed(s, pos + 1, body.len());
        let body_start = pos + 1 + n2;
        let body_end = body_start + body.len() as int;
        assert forall|k: int| 0 <= k < body.len() implies s[body_start + k] == body[k] by {
            assert(s[pos + (1 + n2 + k)] == change_set_bytes(cs)[1 + n2 + k]);
            assert(change_set_bytes(cs)[1 + n2 + k] == rec[1 + n2 + k]);
            assert(rec[1 + n2 + k] == body[k]);
        }
        assert(s.subrange(body_start, body_end) =~= body);
        lemma_parse_change_roundtrip(c);
        assert(spec_parse_change(s.subrange(body_start, body_end)) == Some(c));
        assert forall|k: int| 0 <= k < restb.len() implies s[body_end + k] == restb[k] by {
            assert(s[pos + (rec.len() + k)] == change_set_bytes(cs)[rec.len() + k]);
            assert(change_set_bytes(cs)[rec.len() + k] == restb[k]);
        }
        assert(s.subrange(body_end, s.len() as int) =~= restb);
        lemma_records_embed(cs.drop_first(), s, body_end, acc.push(c));
        assert(acc + cs =~= acc.push(c) + cs.drop_first());
    }
}

/// The stored form of a change set parses back to exactly that change set.
pub proof fn lemma_change_set_roundtrip(cs: Seq<ManifestChange>)
    ensures
        spec_parse_change_set(change_set_bytes(cs)) == Some(cs),
{
    let s = change_set_bytes(cs);
    assert(s.subrange(0, s.len() as int) =~= s);
    lemma_records_embed(cs, s, 0, Seq::empty());
    assert(Seq::<ManifestChange>::empty() + cs =~= cs);
}

/// A parsed change set holds at most one change per two stored bytes:
/// every record spends its tag and length bytes.
proof fn lemma_parse_records_count(s: Seq<u8>, pos: int, acc: Seq<ManifestChange>)
    requires
        0 <= pos <= s.len(),
        spec_parse_records(s, pos, acc) is Some,
    ensures
        spec_parse_records(s, pos, acc).unwrap().len() <= acc.len() + (s.len() - pos) / 2,
    decreases s.len() - pos,
{
    if pos == s.len() {
    } else {
        let (tag, n) = varint_at(s, pos).unwrap();
        crate::codec::lemma_varint_at_bounds(s, pos);
        let wire = tag % 8;
        if tag == 10 {
            let (l, n2) = varint_at(s, pos + n).unwrap();
            crate::codec::lemma_varint_at_bounds(s, pos + n);
            let c = spec_parse_change(s.subrange(pos + n + n2, pos + n + n2 + l)).unwrap();
            lemma_parse_records_count(s, pos + n + n2 + l, acc.push(c));
        } else if wire == 0 {
            let (_v, n2) = varint_at(s, pos + n).unwrap();
            crate::codec::lemma_varint_at_bounds(s, pos + n);
            lemma_parse_records_count(s, pos + n + n2, acc);
        } else if wire == 2 {
            let (l, n2) = varint_at(s, pos + n).unwrap();
            crate::codec::lemma_varint_at_bounds(s, pos + n);
            lemma_parse_records_count(s, pos + n + n2 + l, acc);
        } else if wire == 1 {
            lemma_parse_records_count(s, pos + n + 8, acc);
        } else if wire == 5 {
            lemma_parse_records_count(s, pos + n + 4, acc);
        }
    }
}

/// Each stored change takes at most forty-six bytes.
proof fn lemma_change_set_bytes_len(cs: Seq<ManifestChange>)
    ensures
        change_set_bytes(cs).len() <= 46 * cs.len(),
    decreases cs.len(),
{
    if cs.len() > 0 {
        lemma_change_set_bytes_len(cs.drop_first());
        let c = cs[0];
        lemma_varint_roundtrip(c.id as nat);
        lemma_varint_roundtrip(op_value(c.op) as nat);
        lemma_varint_roundtrip(c.level as nat);
        lemma_varint_roundtrip(c.key_id as nat);
        assert(change_bytes(c).len() <= 44);
        lemma_varint_roundtrip(change_bytes(c).len());
        assert(varint_bytes(change_bytes(c).len()).len() <= 1) by {
            assert(change_bytes(c).len() < 128);
        }
    }
}

/// What replaying the change-set region of a manifest file from `off`
/// yields. A region shorter than a frame header, or one whose announced
/// set does not fit, ends replay at `off`. A length past the file's end
/// fails with the bad-length error, a checksum mismatch with the bad-
/// checksum error, an unparseable set as an invalid request, and an
/// inadmissible change with that change's own error.
pub open spec fn spec_replay(s: Seq<u8>, off: int, m: ManifestModel) -> Result<
    (ManifestModel, int),
    Error,
>
    decreases s.len() - off,
{
    if off < 0 || off + 8 > s.len() {
        Ok((m, off))
    } else {
        let l = u32_of_be(s.subrange(off, off + 4)) as int;
        let crc = u32_of_be(s.subrange(off + 4, off + 8));
        if l > s.len() {
            Err(Error::ManifestBadLength)
        } else if off + 8 + l > s.len() {
            Ok((m, off))
        } else {
            let body = s.subrange(off + 8, off + 8 + l);
            if crc32c_of(body) != crc {
                Err(Error::ManifestBadChecksum)
            } else {
                match spec_parse_change_set(body) {
                    None => Err(Error::InvalidRequest),
                    Some(cs) => match spec_apply_changes(m, cs) {
                        None => Err(spec_apply_changes_err(m, cs)),
                        Some(m2) => spec_replay(s, off + 8 + l, m2),
                    },
                }
            }
        }
    }
}

/// The content of an empty manifest.
pub open spec fn empty_manifest_model() -> ManifestModel {
    ManifestModel { tables: Seq::empty(), levels: Seq::empty(), creations: 0, deletions: 0 }
}

/// Replays the change-set region of manifest file bytes. The header is
/// checked first: a short file or wrong magic text, then a mismatched
/// external magic, then an unsupported format version, each with its own
/// error. After that, `Ok` exactly when replay reaches the end of the
/// last complete, well-checksummed, admissible change set; the returned
/// offset is the position after that set, where the file should be
/// truncated. Replay failures carry the error `spec_replay` names.
#[verifier::rlimit(100)]
pub fn replay_manifest(data: &[u8], ext_magic: u16) -> (r: Result<(Manifest, u64), Error>)
    requires
        data@.len() < 0x100000000,
    ensures
        ({
            let s = data@;
            let header_ok = s.len() >= 8 && s.subrange(0, 4) == magic_text() && u16_of_be(
                s.subrange(4, 6),
            ) == ext_magic && u16_of_be(s.subrange(6, 8)) == BADGER_MAGIC_VERSION;
            match r {
                Ok(p) => {
                    &&& header_ok
                    &&& spec_replay(s, 8, empty_manifest_model()) == Ok::<_, Error>(
                        (p.0@, p.1 as int),
                    )
                },
                Err(e) => e == if s.len() < 8 || s.subrange(0, 4) != magic_text() {
                    Error::ManifestBadMagic
                } else if u16_of_be(s.subrange(4, 6)) != ext_magic {
                    Error::ManifestExtMagicMismatch(ext_magic, u16_of_be(s.subrange(4, 6)))
                } else if u16_of_be(s.subrange(6, 8)) != BADGER_MAGIC_VERSION {
                    Error::ManifestVersionUnsupport(
                        BADGER_MAGIC_VERSION,
                        u16_of_be(s.subrange(6, 8)),
                    )
                } else {
                    spec_replay(s, 8, empty_manifest_model())->Err_0
                } && (header_ok ==> spec_replay(s, 8, empty_manifest_model()) is Err),
            }
        }),
{
    let dlen = data.len();
    if dlen < 8 {
        return Err(Error::ManifestBadMagic);
    }
    if !(data[0] == 0x42 && data[1] == 0x64 && data[2] == 0x67 && data[3] == 0x72) {
        proof {
            if data@.subrange(0, 4) == magic_text() {
                assert(data@[0] == magic_text()[0] && data@[1] == magic_text()[1] && data@[2]
                    == magic_text()[2] && data@[3] == magic_text()[3]);
            }
        }
        return Err(Error::ManifestBadMagic);
    }
    proof {
        assert(data@.subrange(0, 4) =~= magic_text());
    }
    let ext = read_u16_be(data, 4);
    if ext != ext_magic {
        return Err(Error::ManifestExtMagicMismatch(ext_magic, ext));
    }
    let version = read_u16_be(data, 6);
    if version != BADGER_MAGIC_VERSION {
        return Err(Error::ManifestVersionUnsupport(BADGER_MAGIC_VERSION, version));
    }
    let mut mf = Manifest::new();
    let mut off: usize = 8;
    proof {
        assert(mf@ =~~= empty_manifest_model());
        assert(mf@.tables =~= empty_manifest_model().tables);
        assert(mf@.levels =~= empty_manifest_model().levels);
    }
    loop
        invariant
            dlen == data@.len(),
            dlen < 0x100000000,
            8 <= off <= dlen,
            data@.subrange(0, 4) == magic_text(),
            u16_of_be(data@.subrange(4, 6)) == ext_magic,
            u16_of_be(data@.subrange(6, 8)) == BADGER_MAGIC_VERSION,
            mf.levels@.len() <= 256,
            2 * (mf@.creations + mf@.deletions) <= off - 8,
            spec_replay(data@, 8, empty_manifest_model()) == spec_replay(data@, off as int, mf@),
        decreases dlen - off,
    {
        if dlen - off < 8 {
            return Ok((mf, off as u64));
        }
        let l = read_u32_be(data, off);
        let crc = read_u32_be(data, off + 4);
        if l as usize > dlen {
            return Err(Error::ManifestBadLength);
        }
        if (l as usize) > dlen - off - 8 {
            return Ok((mf, off as u64));
        }
        let body_start = off + 8;
        let body_end = body_start + (l as usize);
        let body = slice_subrange(data, body_start, body_end);
        let actual = crc32c(body);
        if actual != crc {
            return Err(Error::ManifestBadChecksum);
        }
        let cs = match decode_change_set(body) {
            Some(cs) => cs,
            None => {
                return Err(Error::InvalidRequest);
            },
        };
        proof {
            let bodyv = data@.subrange(body_start as int, body_end as int);
            lemma_parse_records_count(bodyv, 0, Seq::empty());
            assert(2 * cs@.len() <= l);
        }
        match apply_change_set(&mut mf, &cs) {
            Ok(()) => {},
            Err(e) => {
                return Err(e);
            },
        }
        off = body_end;
    }
}

/// The changes that recreate the tables of a manifest's content, in table
/// order.
pub open spec fn snapshot_changes(m: ManifestModel) -> Seq<ManifestChange> {
    Seq::new(
        m.tables.len(),
        |i: int|
            ManifestChange {
                id: m.tables[i].0,
                op: ManifestOp::Create,
                level: m.tables[i].1.level as u32,
                key_id: m.tables[i].1.key_id,
            },
    )
}

/// The bytes of a freshly rewritten manifest file: the magic header, then
/// one change set holding a create for every table the manifest records.
pub fn manifest_rewrite_bytes(mf: &Manifest, ext_magic: u16) -> (r: Vec<u8>)
    requires
        mf.tables@.len() < 0x100000,
    ensures
        ({
            let body = change_set_bytes(snapshot_changes(mf@));
            r@ == magic_text() + u16_be_bytes(ext_magic) + u16_be_bytes(BADGER_MAGIC_VERSION)
                + u32_be_bytes(body.len() as u32) + u32_be_bytes(crc32c_of(body)) + body
        }),
{
    let changes = mf.as_changes();
    proof {
        assert(changes@ =~= snapshot_changes(mf@));
    }
    let body = encode_change_set(&changes);
    proof {
        lemma_change_set_bytes_len(changes@);
    }
    let crc = crc32c(body.as_slice());
    let mut out: Vec<u8> = Vec::new();
    out.push(0x42);
    out.push(0x64);
    out.push(0x67);
    out.push(0x72);
    put_u16_be(&mut out, ext_magic);
    put_u16_be(&mut out, BADGER_MAGIC_VERSION);
    put_u32_be(&mut out, body.len() as u32);
    put_u32_be(&mut out, crc);
    let ghost pre = out@;
    extend_from(&mut out, body.as_slice());
    proof {
        let bodyv = change_set_bytes(snapshot_changes(mf@));
        assert(out@ =~= magic_text() + u16_be_bytes(ext_magic) + u16_be_bytes(
            BADGER_MAGIC_VERSION,
        ) + u32_be_bytes(bodyv.len() as u32) + u32_be_bytes(crc32c_of(bodyv)) + bodyv);
    }
    out
}

/// Law: on a manifest without table `id`, a create for `id` succeeds, a
/// second create for the same id is then refused, and a following delete
/// removes the table again, leaving one creation and one deletion counted.
pub proof fn lemma_create_then_delete(m: ManifestModel, id: u64, level: u32, key_id: u64)
    requires
        !has_fid(m.tables, id),
        level <= 255,
    ensures
        ({
            let c = ManifestChange { id, op: ManifestOp::Create, level, key_id };
            let d = ManifestChange { id, op: ManifestOp::Delete, level: 0, key_id: 0 };
            &&& spec_apply_change(m, c) is Some
            &&& spec_apply_change(spec_apply_change(m, c).unwrap(), c) is None
            &&& spec_apply_change(spec_apply_change(m, c).unwrap(), d) is Some
            &&& {
                let m2 = spec_apply_change(spec_apply_change(m, c).unwrap(), d).unwrap();
                &&& !has_fid(m2.tables, id)
                &&& m2.tables =~= m.tables
                &&& m2.creations == m.creations + 1
                &&& m2.deletions == m.deletions + 1
            }
        }),
{
    let c = ManifestChange { id, op: ManifestOp::Create, level, key_id };
    let d = ManifestChange { id, op: ManifestOp::Delete, level: 0, key_id: 0 };
    let m1 = spec_apply_change(m, c).unwrap();
    assert(m1.tables[m.tables.len() as int].0 == id);
    assert(has_fid(m1.tables, id));
    lemma_fid_index(m1.tables, id);
    let r = fid_index(m1.tables, id);
    assert forall|j: int| 0 <= j < m.tables.len() implies (#[trigger] m1.tables[j]).0 != id by {
        assert(m1.tables[j] == m.tables[j]);
    }
    assert(r == m.tables.len());
    let m2 = spec_apply_change(m1, d).unwrap();
    assert(m2.tables =~= m.tables);
}

} // verus!
