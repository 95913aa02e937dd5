//! Directory contents: the 32-byte slots of a directory read as logical
//! entries, long names assembled from the slots before each short entry.
use vstd::prelude::*;

use crate::layout::{
    ascii_lower, dotted, name_char, name_checksum, trim_field, LongDirEntry, ShortDirEntry,
    ATTRIBUTE_LFN, DELETED_MARK, DIRENT_SZ,
};

verus! {

/// Slot `i` of directory bytes `b`.
pub open spec fn slot(b: Seq<u8>, i: int) -> Seq<u8> {
    b.subrange(32 * i, 32 * i + 32)
}

/// The name characters of long slot `j`.
pub open spec fn long_chunk(b: Seq<u8>, j: int) -> Seq<u8> {
    let s = slot(b, j);
    (s.subrange(1, 11) + s.subrange(14, 26) + s.subrange(28, 32)).filter(name_char())
}

/// The long name held by slots `longs` (stored last part first).
pub open spec fn assembled(b: Seq<u8>, longs: Seq<int>) -> Seq<u8>
    decreases longs.len(),
{
    if longs.len() == 0 {
        Seq::empty()
    } else {
        long_chunk(b, longs.last()) + assembled(b, longs.drop_last())
    }
}

/// Whether every slot of `longs` carries checksum `c`.
pub open spec fn checks(b: Seq<u8>, longs: Seq<int>, c: u8) -> bool {
    forall|k: int| 0 <= k < longs.len() ==> #[trigger] slot(b, longs[k])[13] == c
}

/// The short name of slot `i`, lower case, as `name.ext`.
pub open spec fn short_lower(b: Seq<u8>, i: int) -> Seq<u8> {
    let s = slot(b, i);
    dotted(trim_field(s.subrange(0, 8)), trim_field(s.subrange(8, 11))).map_values(
        |c: u8| ascii_lower(c),
    )
}

/// The name of the entry whose short slot is `i`, preceded by long slots
/// `longs`: the long name when there is one and every long slot carries
/// the short name's checksum, else the short name.
pub open spec fn item_name(b: Seq<u8>, i: int, longs: Seq<int>) -> Seq<u8> {
    if longs.len() > 0 && checks(b, longs, name_checksum(slot(b, i).subrange(0, 11))) {
        assembled(b, longs)
    } else {
        short_lower(b, i)
    }
}

/// The entries found from slot `i` on, with long slots `longs` pending:
/// (name, short slot, long slots). A slot starting with 0 ends the
/// directory; a deleted slot is skipped; a long slot is kept for the short
/// slot that follows.
pub open spec fn scan(b: Seq<u8>, i: int, longs: Seq<int>) -> Seq<(Seq<u8>, int, Seq<int>)>
    decreases b.len() / 32 - i,
{
    if i < 0 || i >= b.len() / 32 || b[32 * i] == 0 {
        Seq::empty()
    } else if b[32 * i] == DELETED_MARK {
        scan(b, i + 1, Seq::empty())
    } else if b[32 * i + 11] == ATTRIBUTE_LFN {
        scan(b, i + 1, longs.push(i))
    } else {
        seq![(item_name(b, i, longs), i, longs)] + scan(b, i + 1, Seq::empty())
    }
}

/// The logical entries of a directory whose bytes are `b`.
pub open spec fn entries(b: Seq<u8>) -> Seq<(Seq<u8>, int, Seq<int>)> {
    scan(b, 0, Seq::empty())
}

/// One logical entry of a directory.
pub struct DirItem {
    /// Its name: the long name, or the short one in lower case.
    pub name: Vec<u8>,
    /// Its short entry.
    pub entry: ShortDirEntry,
    /// Index of the short slot.
    pub slot: usize,
    /// Indexes of its long slots, in the order they are stored.
    pub long_slots: Vec<usize>,
}

impl DirItem {
    /// (name, short slot, long slots).
    pub open spec fn spec_view(&self) -> (Seq<u8>, int, Seq<int>) {
        (self.name@, self.slot as int, self.long_slots@.map_values(|x: usize| x as int))
    }
}

fn slot_bytes(b: &[u8], i: usize) -> (r: &[u8])
    requires
        32 * i + 32 <= b@.len(),
    ensures
        r@ == slot(b@, i as int),
{
    let _len = b.len();
    vstd::slice::slice_subrange(b, 32 * i, 32 * i + 32)
}

/// The name characters of long slot `j`.
fn long_chunk_exec(b: &[u8], j: usize) -> (r: Vec<u8>)
    requires
        32 * j + 32 <= b@.len(),
    ensures
        r@ == long_chunk(b@, j as int),
{
    let l = LongDirEntry::from_bytes(slot_bytes(b, j));
    let r = l.get_name_format();
    proof {
        let s = slot(b@, j as int);
        assert(l.units() =~= s.subrange(1, 11) + s.subrange(14, 26) + s.subrange(28, 32));
    }
    r
}

/// The long name held by slots `longs`.
fn assemble(b: &[u8], longs: &Vec<usize>) -> (r: Vec<u8>)
    requires
        forall|k: int| 0 <= k < longs@.len() ==> 32 * #[trigger] longs@[k] + 32 <= b@.len(),
    ensures
        r@ == assembled(b@, longs@.map_values(|x: usize| x as int)),
{
    let ghost ls = longs@.map_values(|x: usize| x as int);
    let mut name: Vec<u8> = Vec::new();
    let mut k: usize = longs.len();
    proof {
        assert(ls.take(k as int) =~= ls);
        assert(name@ + assembled(b@, ls) =~= assembled(b@, ls));
    }
    while k > 0
        invariant
            k <= longs@.len(),
            ls == longs@.map_values(|x: usize| x as int),
            forall|q: int| 0 <= q < longs@.len() ==> 32 * #[trigger] longs@[q] + 32 <= b@.len(),
            name@ + assembled(b@, ls.take(k as int)) == assembled(b@, ls),
        decreases k,
    {
        let chunk = long_chunk_exec(b, longs[k - 1]);
        let ghost before = name@;
        let mut t: usize = 0;
        while t < chunk.len()
            invariant
                t <= chunk@.len(),
                name@ == before + chunk@.take(t as int),
            decreases chunk@.len() - t,
        {
            name.push(chunk[t]);
            assert(chunk@.take(t + 1) =~= chunk@.take(t as int).push(chunk@[t as int]));
            t += 1;
        }
        proof {
            assert(chunk@.take(chunk@.len() as int) =~= chunk@);
            let tk = ls.take(k as int);
            assert(tk.drop_last() =~= ls.take(k - 1));
            assert(tk.last() == longs@[k - 1] as int);
            assert(name@ + assembled(b@, ls.take(k - 1)) =~= before + assembled(b@, tk));
        }
        k -= 1;
    }
    proof {
        assert(ls.take(0) =~= Seq::<int>::empty());
        assert(name@ =~= name@ + Seq::<u8>::empty());
    }
    name
}

/// The entries of directory bytes `b`, as `entries` states.
pub fn parse_dir(b: &[u8]) -> (r: Vec<DirItem>)
    ensures
        r@.len() == entries(b@).len(),
        forall|k: int| 0 <= k < r@.len() ==> #[trigger] r@[k].spec_view() == entries(b@)[k],
        forall|k: int|
            0 <= k < r@.len() ==> (#[trigger] r@[k]).entry.parsed_from(slot(b@, r@[k].slot as int)),
{
    let n = b.len() / DIRENT_SZ;
    let mut out: Vec<DirItem> = Vec::new();
    let mut pending: Vec<usize> = Vec::new();
    let ghost views: Seq<(Seq<u8>, int, Seq<int>)> = Seq::empty();
    let mut i: usize = 0;
    let blen = b.len();
    proof {
        assert(pending@.map_values(|x: usize| x as int) =~= Seq::<int>::empty());
        assert(views + entries(b@) =~= entries(b@));
    }
    while i < n
        invariant
            n == b@.len() / 32,
            blen == b@.len(),
            i <= n,
            views.len() == out@.len(),
            forall|k: int| 0 <= k < out@.len() ==> #[trigger] out@[k].spec_view() == views[k],
            forall|k: int|
                0 <= k < out@.len() ==> (#[trigger] out@[k]).entry.parsed_from(slot(b@, out@[k].slot as int)),
            forall|k: int| 0 <= k < pending@.len() ==> #[trigger] pending@[k] < i,
            views + scan(b@, i as int, pending@.map_values(|x: usize| x as int)) == entries(b@),
        decreases n - i,
    {
        let ghost ls = pending@.map_values(|x: usize| x as int);
        proof {
            assert(32 * i + 32 <= b@.len()) by (nonlinear_arith)
                requires
                    i < n,
                    n == b@.len() / 32,
            ;
        }
        let first = b[32 * i];
        if first == 0 {
            proof {
                assert(scan(b@, i as int, ls) == Seq::<(Seq<u8>, int, Seq<int>)>::empty());
                assert(views =~= entries(b@));
            }
            return out;
        }
        if first == DELETED_MARK {
            pending = Vec::new();
            proof {
                assert(pending@.map_values(|x: usize| x as int) =~= Seq::<int>::empty());
            }
        } else if b[32 * i + 11] == ATTRIBUTE_LFN {
            pending.push(i);
            proof {
                assert(pending@.map_values(|x: usize| x as int) =~= ls.push(i as int));
            }
        } else {
            let s = slot_bytes(b, i);
            let entry = ShortDirEntry::from_bytes(s);
            let chk = entry.checksum();
            proof {
                assert(entry.name_bytes() =~= slot(b@, i as int).subrange(0, 11));
            }
            let mut ok = pending.len() > 0;
            let mut k: usize = 0;
            while k < pending.len()
                invariant
                    k <= pending@.len(),
                    i < n,
                    n == b@.len() / 32,
                    blen == b@.len(),
                    32 * i + 32 <= b@.len(),
                    forall|q: int| 0 <= q < pending@.len() ==> #[trigger] pending@[q] < i,
                    ls == pending@.map_values(|x: usize| x as int),
                    ok == (pending@.len() > 0 && forall|q: int| 0 <= q < k ==> #[trigger] slot(b@, ls[q])[13] == chk),
                decreases pending@.len() - k,
            {
                let j = pending[k];
                proof {
                    assert(32 * j + 32 <= b@.len()) by (nonlinear_arith)
                        requires
                            j < i,
                            32 * i + 32 <= b@.len(),
                    ;
                }
                if b[32 * j + 13] != chk {
                    ok = false;
                }
                proof {
                    assert(slot(b@, ls[k as int])[13] == b@[32 * j + 13]);
                }
                k += 1;
            }
            proof {
                assert forall|q: int| 0 <= q < pending@.len() implies 32 * #[trigger] pending@[q] + 32 <= b@.len() by {
                    assert(32 * pending@[q] + 32 <= b@.len()) by (nonlinear_arith)
                        requires
                            pending@[q] < i,
                            32 * i + 32 <= b@.len(),
                    ;
                }
            }
            let name = if ok {
                assemble(b, &pending)
            } else {
                let r = entry.get_name_lowercase();
                proof {
                    assert(entry.name@ =~= slot(b@, i as int).subrange(0, 8));
                    assert(entry.extension@ =~= slot(b@, i as int).subrange(8, 11));
                }
                r
            };
            let item = DirItem { name, entry, slot: i, long_slots: pending };
            proof {
                assert(item.spec_view() == (item_name(b@, i as int, ls), i as int, ls));
                views = views.push(item.spec_view());
            }
            out.push(item);
            pending = Vec::new();
            proof {
                assert(pending@.map_values(|x: usize| x as int) =~= Seq::<int>::empty());
                assert(views + scan(b@, i + 1, Seq::empty()) =~= entries(b@)) by {
                    assert(scan(b@, i as int, ls) == seq![(item_name(b@, i as int, ls), i as int, ls)] + scan(b@, i + 1, Seq::empty()));
                    assert(views.drop_last() + scan(b@, i as int, ls) == entries(b@));
                }
            }
        }
        i += 1;
    }
    proof {
        assert(scan(b@, n as int, pending@.map_values(|x: usize| x as int)) == Seq::<(Seq<u8>, int, Seq<int>)>::empty());
        assert(views =~= entries(b@));
    }
    out
}


/// Every entry found lies in the directory, after its long slots.
pub proof fn lemma_scan_bounds(b: Seq<u8>, i: int, longs: Seq<int>)
    requires
        0 <= i,
        forall|q: int| 0 <= q < longs.len() ==> 0 <= #[trigger] longs[q] < i,
    ensures
        forall|k: int|
            0 <= k < scan(b, i, longs).len() ==> {
                &&& i <= (#[trigger] scan(b, i, longs)[k]).1 < b.len() / 32
                &&& forall|q: int|
                    0 <= q < scan(b, i, longs)[k].2.len() ==> 0 <= #[trigger] scan(b, i, longs)[k].2[q]
                        < scan(b, i, longs)[k].1
            },
    decreases b.len() / 32 - i,
{
    if i < 0 || i >= b.len() / 32 || b[32 * i] == 0 {
        assert(scan(b, i, longs).len() == 0);
    } else if b[32 * i] == DELETED_MARK {
        lemma_scan_bounds(b, i + 1, Seq::empty());
        assert(scan(b, i, longs) == scan(b, i + 1, Seq::empty()));
    } else if b[32 * i + 11] == ATTRIBUTE_LFN {
        assert forall|q: int| 0 <= q < longs.push(i).len() implies 0 <= #[trigger] longs.push(i)[q] < i + 1 by {
            if q < longs.len() {
                assert(longs.push(i)[q] == longs[q]);
            }
        }
        lemma_scan_bounds(b, i + 1, longs.push(i));
        assert(scan(b, i, longs) == scan(b, i + 1, longs.push(i)));
    } else {
        lemma_scan_bounds(b, i + 1, Seq::empty());
        let rest = scan(b, i + 1, Seq::empty());
        let all = scan(b, i, longs);
        assert(all == seq![(item_name(b, i, longs), i, longs)] + rest);
        assert forall|k: int| 0 <= k < all.len() implies {
            &&& i <= (#[trigger] all[k]).1 < b.len() / 32
            &&& forall|q: int| 0 <= q < all[k].2.len() ==> 0 <= #[trigger] all[k].2[q] < all[k].1
        } by {
            if k > 0 {
                assert(all[k] == rest[k - 1]);
            }
        }
    }
}

} // verus!

verus! {

/// Slot `i` holds a short entry in use.
pub open spec fn is_entry_slot(b: Seq<u8>, i: int) -> bool {
    b[32 * i] != 0 && b[32 * i] != DELETED_MARK && b[32 * i + 11] != ATTRIBUTE_LFN
}

/// No slot from `i` to `t` ends the directory.
pub open spec fn open_between(b: Seq<u8>, i: int, t: int) -> bool {
    forall|j: int| i <= j <= t ==> #[trigger] b[32 * j] != 0
}

/// Scanning yields each entry slot in use before the first terminator, and
/// nothing else, in increasing order: every such entry exactly once.
pub proof fn lemma_scan_exact(b: Seq<u8>, i: int, longs: Seq<int>)
    requires
        0 <= i,
        forall|q: int| 0 <= q < longs.len() ==> 0 <= #[trigger] longs[q] < i,
    ensures
        forall|k1: int, k2: int|
            0 <= k1 < k2 < scan(b, i, longs).len() ==> #[trigger] scan(b, i, longs)[k1].1
                < #[trigger] scan(b, i, longs)[k2].1,
        forall|k: int|
            0 <= k < scan(b, i, longs).len() ==> is_entry_slot(b, (#[trigger] scan(b, i, longs)[k]).1)
                && open_between(b, i, scan(b, i, longs)[k].1),
        forall|t: int|
            #![trigger is_entry_slot(b, t)]
            i <= t < b.len() / 32 && is_entry_slot(b, t) && open_between(b, i, t) ==> exists|k: int|
                0 <= k < scan(b, i, longs).len() && #[trigger] scan(b, i, longs)[k].1 == t,
    decreases b.len() / 32 - i,
{
    let s = scan(b, i, longs);
    lemma_scan_bounds(b, i, longs);
    if i >= b.len() / 32 || b[32 * i] == 0 {
        assert(s.len() == 0);
        assert forall|t: int| #![trigger is_entry_slot(b, t)] i <= t < b.len() / 32 && is_entry_slot(b, t) && open_between(b, i, t) implies exists|k: int|
            0 <= k < s.len() && #[trigger] s[k].1 == t by {
            assert(b[32 * i] != 0);
        }
    } else {
        let next_longs = if b[32 * i] == DELETED_MARK || b[32 * i + 11] != ATTRIBUTE_LFN {
            Seq::<int>::empty()
        } else {
            longs.push(i)
        };
        assert forall|q: int| 0 <= q < next_longs.len() implies 0 <= #[trigger] next_longs[q] < i + 1 by {
            if next_longs.len() > 0 && q < longs.len() {
                assert(next_longs[q] == longs[q]);
            }
        }
        lemma_scan_exact(b, i + 1, next_longs);
        lemma_scan_bounds(b, i + 1, next_longs);
        let rest = scan(b, i + 1, next_longs);
        let emits = b[32 * i] != DELETED_MARK && b[32 * i + 11] != ATTRIBUTE_LFN;
        assert forall|t: int| i + 1 <= t && open_between(b, i + 1, t) implies open_between(b, i, t) by {
            assert forall|j: int| i <= j <= t implies #[trigger] b[32 * j] != 0 by {
                if j > i {
                    assert(open_between(b, i + 1, t));
                }
            }
        }
        if emits {
            assert(s == seq![(item_name(b, i, longs), i, longs)] + rest);
            assert forall|k1: int, k2: int| 0 <= k1 < k2 < s.len() implies #[trigger] s[k1].1 < #[trigger] s[k2].1 by {
                assert(s[k2] == rest[k2 - 1]);
                if k1 > 0 {
                    assert(s[k1] == rest[k1 - 1]);
                }
            }
            assert forall|k: int| 0 <= k < s.len() implies is_entry_slot(b, (#[trigger] s[k]).1) && open_between(b, i, s[k].1) by {
                if k == 0 {
                    assert(open_between(b, i, i));
                } else {
                    assert(s[k] == rest[k - 1]);
                    assert(open_between(b, i + 1, rest[k - 1].1));
                }
            }
            assert forall|t: int| #![trigger is_entry_slot(b, t)] i <= t < b.len() / 32 && is_entry_slot(b, t) && open_between(b, i, t) implies exists|k: int|
                0 <= k < s.len() && #[trigger] s[k].1 == t by {
                if t == i {
                    assert(s[0].1 == i);
                } else {
                    assert(open_between(b, i + 1, t));
                    let k = choose|k: int| 0 <= k < rest.len() && #[trigger] rest[k].1 == t;
                    assert(s[k + 1] == rest[k]);
                }
            }
        } else {
            assert(s == rest);
            assert forall|k: int| 0 <= k < s.len() implies is_entry_slot(b, (#[trigger] s[k]).1) && open_between(b, i, s[k].1) by {
                assert(open_between(b, i + 1, rest[k].1));
            }
            assert forall|t: int| #![trigger is_entry_slot(b, t)] i <= t < b.len() / 32 && is_entry_slot(b, t) && open_between(b, i, t) implies exists|k: int|
                0 <= k < s.len() && #[trigger] s[k].1 == t by {
                assert(t != i);
                assert(open_between(b, i + 1, t));
                let k = choose|k: int| 0 <= k < rest.len() && #[trigger] rest[k].1 == t;
                assert(s[k] == rest[k]);
            }
        }
    }
}

/// The name a short entry gets is its long name exactly when it has long
/// slots and every one of them carries the checksum of its 11 name bytes;
/// otherwise it is the short name.
pub proof fn lemma_checksum_selects_name(b: Seq<u8>, i: int, longs: Seq<int>)
    ensures
        longs.len() > 0 && checks(b, longs, name_checksum(slot(b, i).subrange(0, 11))) ==> item_name(
            b,
            i,
            longs,
        ) == assembled(b, longs),
        !(longs.len() > 0 && checks(b, longs, name_checksum(slot(b, i).subrange(0, 11))))
            ==> item_name(b, i, longs) == short_lower(b, i),
{
}

} // verus!
