//! What the letters of a path mean to a FAT32 volume: their case makes no difference.

use crate::drivers::virtio_blk::DiskView;
use crate::fs::fat::{self, Fat32, FatError};
use crate::fs::fat_laws;
use crate::fs::path;
use vstd::prelude::*;

verus! {

/// A byte string with its ASCII letters in upper case.
pub open spec fn capitals(s: Seq<u8>) -> Seq<u8> {
    Seq::new(s.len(), |i: int| fat::upper(s[i]))
}

/// Byte strings with their ASCII letters in upper case.
pub open spec fn all_capitals(ps: Seq<Seq<u8>>) -> Seq<Seq<u8>> {
    Seq::new(ps.len(), |i: int| capitals(ps[i]))
}

/// Splitting at a byte that is no letter does not depend on the case.
proof fn lemma_pieces_capitals(s: Seq<u8>, sep: u8)
    requires
        sep < 0x41,
    ensures
        path::pieces(capitals(s), sep) == all_capitals(path::pieces(s, sep)),
    decreases s.len(),
{
    path::lemma_pieces_nonempty(s, sep);
    if s.len() == 0 {
        assert(capitals(Seq::<u8>::empty()) =~= Seq::<u8>::empty());
        assert(path::pieces(capitals(s), sep) =~= all_capitals(path::pieces(s, sep)));
    } else {
        let t = s.drop_last();
        lemma_pieces_capitals(t, sep);
        path::lemma_pieces_nonempty(t, sep);
        assert(capitals(s).drop_last() =~= capitals(t));
        let before = path::pieces(t, sep);
        assert(capitals(Seq::<u8>::empty()) =~= Seq::<u8>::empty());
        assert(capitals(before.last().push(s.last())) =~= capitals(before.last()).push(
            fat::upper(s.last()),
        ));
        assert(path::pieces(capitals(s), sep) =~= all_capitals(path::pieces(s, sep)));
    }
}

/// Leaving empty pieces out does not depend on the case.
proof fn lemma_non_empty_capitals(ps: Seq<Seq<u8>>)
    ensures
        path::non_empty(all_capitals(ps)) == all_capitals(path::non_empty(ps)),
    decreases ps.len(),
{
    if ps.len() > 0 {
        lemma_non_empty_capitals(ps.drop_last());
        assert(all_capitals(ps).drop_last() =~= all_capitals(ps.drop_last()));
        assert(path::non_empty(all_capitals(ps)) =~= all_capitals(path::non_empty(ps)));
    } else {
        assert(path::non_empty(all_capitals(ps)) =~= all_capitals(path::non_empty(ps)));
    }
}

/// A name has one 8.3 form, whatever its case.
proof fn lemma_name_capitals(name: Seq<u8>)
    ensures
        fat::name_83(capitals(name)) == fat::name_83(name),
{
    lemma_pieces_capitals(name, path::DOT);
    path::lemma_pieces_nonempty(name, path::DOT);
    assert(fat::base_of(capitals(name)) =~= capitals(fat::base_of(name)));
    assert(fat::ext_of(capitals(name)) =~= capitals(fat::ext_of(name)));
    assert(fat::name_83(capitals(name)) =~= fat::name_83(name));
}

impl Fat32 {
    /// A trail does not depend on the case.
    proof fn lemma_descend_capitals(self, d: DiskView, c: u32, comps: Seq<Seq<u8>>)
        ensures
            self.descend(d, c, all_capitals(comps)) == self.descend(d, c, comps),
        decreases comps.len(),
    {
        if comps.len() > 0 {
            lemma_name_capitals(comps[0]);
            assert(all_capitals(comps).skip(1) =~= all_capitals(comps.skip(1)));
            if let Ok(Some(entry)) = self.found_in_dir(d, c, comps[0]) {
                self.lemma_descend_capitals(d, entry.first_cluster, comps.skip(1));
            }
        }
    }
}

/// Letter case makes no difference: a path in upper case names what it names in any other case, is
/// read alike and is written alike.
pub proof fn law_letter_case_makes_no_difference(v: Fat32, d: DiskView, path: Seq<u8>, data: Seq<u8>)
    ensures
        v.entry_of(d, capitals(path)) == v.entry_of(d, path),
        v.file_read(d, capitals(path)) == v.file_read(d, path),
        v.file_written(d, capitals(path), data) == v.file_written(d, path, data),
        v.dir_made(d, capitals(path)) == v.dir_made(d, path),
        v.file_removed(d, capitals(path)) == v.file_removed(d, path),
        v.dir_removed(d, capitals(path)) == v.dir_removed(d, path),
{
    let comps = path::components(path);
    lemma_pieces_capitals(path, path::SLASH);
    lemma_non_empty_capitals(path::pieces(path, path::SLASH));
    assert(path::components(capitals(path)) == all_capitals(comps));
    if comps.len() > 0 {
        assert(all_capitals(comps).drop_last() =~= all_capitals(comps.drop_last()));
        v.lemma_descend_capitals(d, v.root_cluster, comps.drop_last());
        lemma_name_capitals(comps.last());
    }
}

/// What was written to a file reads back under its path in any case, an empty file as an empty one.
/// The conditions are those under which it reads back at all.
pub proof fn law_written_file_reads_back_in_any_case(
    v: Fat32,
    d: DiskView,
    path: Seq<u8>,
    other: Seq<u8>,
    data: Seq<u8>,
)
    requires
        v.sound(),
        d.wf(),
        fat_laws::readable(d),
        data.len() <= u32::MAX,
        fat_laws::findable(fat::name_83(path::components(path).last())),
        v.write_sound(d, path),
        v.file_written(d, path, data).1 is Ok,
        capitals(other) == capitals(path),
    ensures
        v.file_read(v.file_written(d, path, data).0, other) == Ok::<Seq<u8>, FatError>(data),
{
    let d2 = v.file_written(d, path, data).0;
    fat_laws::law_written_file_reads_back(v, d, path, data);
    law_letter_case_makes_no_difference(v, d2, path, data);
    law_letter_case_makes_no_difference(v, d2, other, data);
}

} // verus!
