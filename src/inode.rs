//! Page descriptors and their stored form.
use vstd::prelude::*;
use crate::access::Access;
use crate::array::Array;
use crate::codec::{
    RawRecord, RawRecordView, acl_pad, lemma_acl_image, lemma_acl_pad_len, lemma_chunks_image, lemma_le16, lemma_le64,
    record_fits, record_image, records_image, records_view,
};
use crate::array::round_spec;
use crate::error::Error;
use crate::strtab::{StringTable, distinct, interned, lemma_intern_lookup};

verus! {

/// What a page holds on disk: its name, its access list as `(mask, principal)`
/// pairs, and its chunks in logical order.
pub struct PageView {
    pub name: Seq<char>,
    pub acl: Seq<(u8, Seq<char>)>,
    pub chunks: Seq<Array>,
}

/// Metadata about a page: its name, access list, timestamps, and the chunks
/// whose concatenation forms its content.
#[derive(Debug)]
pub struct PageDescriptor {
    /// The name of the page (typically a path).
    pub name: String,
    /// Access entries; interpreting them is up to the caller.
    pub access_control_list: Vec<Access>,
    /// When the page was last modified, in milliseconds since the epoch.
    pub modified: u64,
    /// When the page was created, in milliseconds since the epoch.
    pub created: u64,
    /// The chunks `(length, offset)` in logical order.
    pub inodes: Vec<Array>,
}

impl View for PageDescriptor {
    type V = PageView;

    open spec fn view(&self) -> PageView {
        PageView {
            name: self.name@,
            acl: self.access_control_list@.map_values(|a: Access| a.view_pair()),
            chunks: self.inodes@,
        }
    }
}

/// The stored views of a list of descriptors.
pub open spec fn pages_view(v: Seq<PageDescriptor>) -> Seq<PageView> {
    v.map_values(|p: PageDescriptor| p@)
}

/// No two pages share a name.
pub open spec fn unique_names(ps: Seq<PageView>) -> bool {
    forall|i: int, j: int|
        0 <= i < ps.len() && 0 <= j < ps.len() && i != j ==> ps[i].name != ps[j].name
}

/// Whether every index of the record lies in the table.
pub open spec fn resolves(r: RawRecordView, t: Seq<Seq<char>>) -> bool {
    &&& r.name < t.len()
    &&& forall|j: int| 0 <= j < r.acl.len() ==> (#[trigger] r.acl[j]).1 < t.len()
}

/// The page a record stands for, its indices replaced by the strings.
pub open spec fn resolve_spec(r: RawRecordView, t: Seq<Seq<char>>) -> PageView {
    PageView {
        name: t[r.name as int],
        acl: r.acl.map_values(|e: (u8, u64)| (e.0, t[e.1 as int])),
        chunks: r.chunks,
    }
}

pub open spec fn resolve_each(rs: Seq<RawRecordView>, t: Seq<Seq<char>>) -> Seq<PageView> {
    rs.map_values(|r: RawRecordView| resolve_spec(r, t))
}

/// The pages an inode table stands for; `CorruptFormat` when an index is
/// missing from the string table or two pages share a name.
pub open spec fn resolve_all_spec(rs: Seq<RawRecordView>, t: Seq<Seq<char>>) -> Result<
    Seq<PageView>,
    Error,
> {
    if (forall|i: int| 0 <= i < rs.len() ==> resolves(#[trigger] rs[i], t)) && unique_names(
        resolve_each(rs, t),
    ) {
        Ok(resolve_each(rs, t))
    } else {
        Err(Error::CorruptFormat)
    }
}

/// `t` is a prefix of `t2`.
pub open spec fn prefix_of(t: Seq<Seq<char>>, t2: Seq<Seq<char>>) -> bool {
    t.len() <= t2.len() && forall|j: int| 0 <= j < t.len() ==> t2[j] == t[j]
}

/// Whether `s` is the name or a principal of one of the pages.
pub open spec fn labels(ps: Seq<PageView>, s: Seq<char>) -> bool {
    exists|i: int|
        0 <= i < ps.len() && (ps[i].name == s || exists|k: int|
            0 <= k < ps[i].acl.len() && (#[trigger] ps[i].acl[k]).1 == s)
}

/// Whether `t` holds `s`.
pub open spec fn present(t: Seq<Seq<char>>, s: Seq<char>) -> bool {
    exists|j: int| 0 <= j < t.len() && t[j] == s
}

/// Whether `t` holds every name and principal of the pages.
pub open spec fn all_present(ps: Seq<PageView>, t: Seq<Seq<char>>) -> bool {
    forall|i: int|
        0 <= i < ps.len() ==> present(t, #[trigger] ps[i].name) && forall|k: int|
            0 <= k < ps[i].acl.len() ==> present(t, (#[trigger] ps[i].acl[k]).1)
}

/// How interning the names and principals of `ps` turns table `t` into
/// `t2`: old entries stay, new ones are names or principals, a table without
/// repeats keeps none, and nothing is added when all were there.
pub open spec fn grown(t: Seq<Seq<char>>, t2: Seq<Seq<char>>, ps: Seq<PageView>) -> bool {
    &&& prefix_of(t, t2)
    &&& distinct(t) ==> distinct(t2)
    &&& forall|j: int| t.len() <= j < t2.len() ==> labels(ps, #[trigger] t2[j])
    &&& all_present(ps, t) ==> t2 == t
}

proof fn lemma_grown_intern(
    t0: Seq<Seq<char>>,
    t: Seq<Seq<char>>,
    s: Seq<char>,
    t2: Seq<Seq<char>>,
    r: int,
    ps: Seq<PageView>,
)
    requires
        grown(t0, t, ps),
        interned(t, s, t2, r),
        labels(ps, s),
        all_present(ps, t0) ==> present(t0, s),
    ensures
        grown(t0, t2, ps),
{
    if exists|j: int| 0 <= j < t.len() && t[j] == s {
    } else {
        assert(t2 == t.push(s));
        assert forall|j: int| t0.len() <= j < t2.len() implies labels(ps, #[trigger] t2[j]) by {
            if j < t.len() {
                assert(t2[j] == t[j]);
            }
        }
        if distinct(t) {
            assert forall|a: int, b: int|
                0 <= a < t2.len() && 0 <= b < t2.len() && a != b implies t2[a] != t2[b] by {
                if a < t.len() && b < t.len() {
                    assert(t2[a] == t[a] && t2[b] == t[b]);
                } else if a < t.len() {
                    assert(t2[a] == t[a]);
                } else if b < t.len() {
                    assert(t2[b] == t[b]);
                }
            }
        }
        if all_present(ps, t0) {
            let j = choose|j: int| 0 <= j < t0.len() && t0[j] == s;
            assert(t[j] == s);
        }
    }
}

proof fn lemma_grown_compose(
    t0: Seq<Seq<char>>,
    t1: Seq<Seq<char>>,
    t2: Seq<Seq<char>>,
    ps: Seq<PageView>,
    i: int,
)
    requires
        0 <= i < ps.len(),
        grown(t0, t1, ps),
        grown(t1, t2, seq![ps[i]]),
    ensures
        grown(t0, t2, ps),
{
    assert forall|j: int| t0.len() <= j < t2.len() implies labels(ps, #[trigger] t2[j]) by {
        if j < t1.len() {
            assert(t2[j] == t1[j]);
        } else {
            assert(labels(seq![ps[i]], t2[j]));
            let q = seq![ps[i]];
            assert(q[0] == ps[i]);
            if ps[i].name != t2[j] {
                let k = choose|k: int| 0 <= k < q[0].acl.len() && (#[trigger] q[0].acl[k]).1 == t2[j];
                assert(ps[i].acl[k].1 == t2[j]);
            }
        }
    }
    if all_present(ps, t0) {
        assert(t1 == t0);
        let q = seq![ps[i]];
        assert forall|a: int| 0 <= a < q.len() implies present(t1, #[trigger] q[a].name) && forall|k: int|
            0 <= k < q[a].acl.len() ==> present(t1, (#[trigger] q[a].acl[k]).1) by {
            assert(q[a] == ps[i]);
        }
    }
}

/// Bytes that a page's inode record takes.
pub open spec fn record_size(p: PageView) -> int {
    8 + round_spec(2 + 9 * (p.acl.len() as int), 16) + 8 + 16 * p.chunks.len()
}

/// Bytes that the inode table of these pages takes.
pub open spec fn records_size(ps: Seq<PageView>) -> int
    decreases ps.len(),
{
    if ps.len() == 0 {
        0
    } else {
        records_size(ps.drop_last()) + record_size(ps.last())
    }
}

/// The inode table's size depends on the pages alone, not on the indices.
pub proof fn lemma_records_size(raws: Seq<RawRecordView>, t: Seq<Seq<char>>)
    ensures
        records_image(raws).len() == records_size(resolve_each(raws, t)),
    decreases raws.len(),
{
    if raws.len() > 0 {
        let r = raws.last();
        lemma_records_size(raws.drop_last(), t);
        assert(resolve_each(raws.drop_last(), t) =~= resolve_each(raws, t).drop_last());
        lemma_acl_image(r.acl);
        lemma_chunks_image(r.chunks);
        lemma_le64(r.name);
        lemma_le16(r.acl.len() as u16);
        lemma_le64(r.chunks.len() as u64);
        lemma_acl_pad_len(r.acl.len() as int);
        assert(resolve_each(raws, t).last() == resolve_spec(r, t));
        assert(resolve_spec(r, t).acl.len() == r.acl.len());
    }
}

/// Resolving against a longer table that keeps the old entries gives the same page.
pub proof fn lemma_resolve_prefix(r: RawRecordView, t: Seq<Seq<char>>, t2: Seq<Seq<char>>)
    requires
        resolves(r, t),
        prefix_of(t, t2),
    ensures
        resolves(r, t2),
        resolve_spec(r, t2) == resolve_spec(r, t),
{
    assert(resolve_spec(r, t2).acl =~= resolve_spec(r, t).acl);
}

/// A copy of a list of ranges.
pub fn copy_arrays(v: &Vec<Array>) -> (r: Vec<Array>)
    ensures
        r@ == v@,
{
    let mut out: Vec<Array> = Vec::new();
    let mut i: usize = 0;
    while i < v.len()
        invariant
            i <= v@.len(),
            out@ == v@.take(i as int),
        decreases v@.len() - i,
    {
        out.push(v[i]);
        i = i + 1;
        assert(out@ =~= v@.take(i as int));
    }
    assert(v@.take(i as int) =~= v@);
    out
}

impl PageDescriptor {
    /// A copy of the descriptor.
    pub fn duplicate(&self) -> (r: PageDescriptor)
        ensures
            r@ == self@,
            r.created == self.created,
            r.modified == self.modified,
    {
        let mut acl: Vec<Access> = Vec::new();
        let mut i: usize = 0;
        while i < self.access_control_list.len()
            invariant
                i <= self.access_control_list@.len(),
                acl@.len() == i,
                forall|k: int|
                    0 <= k < i ==> (#[trigger] acl@[k]).view_pair()
                        == self.access_control_list@[k].view_pair(),
            decreases self.access_control_list@.len() - i,
        {
            acl.push(self.access_control_list[i].duplicate());
            i = i + 1;
        }
        assert(acl@.map_values(|a: Access| a.view_pair()) =~= self.access_control_list@.map_values(
            |a: Access| a.view_pair(),
        ));
        PageDescriptor {
            name: self.name.clone(),
            access_control_list: acl,
            modified: self.modified,
            created: self.created,
            inodes: copy_arrays(&self.inodes),
        }
    }
}

/// Builds the descriptors of an inode table, resolving its indices through
/// the string table; both timestamps are set to `now`.
pub fn resolve_records(raws: &Vec<RawRecord>, t: &StringTable, now: u64) -> (r: Result<
    Vec<PageDescriptor>,
    Error,
>)
    ensures
        match resolve_all_spec(records_view(raws@), t@) {
            Ok(ps) => r matches Ok(v) && pages_view(v@) == ps,
            Err(e) => r == Err::<Vec<PageDescriptor>, Error>(e),
        },
{
    let ghost rs = records_view(raws@);
    assert(rs.len() == raws@.len());
    let mut out: Vec<PageDescriptor> = Vec::new();
    let mut i: usize = 0;
    while i < raws.len()
        invariant
            i <= raws@.len(),
            rs == records_view(raws@),
            rs.len() == raws@.len(),
            out@.len() == i,
            forall|k: int| 0 <= k < i ==> resolves(#[trigger] rs[k], t@),
            forall|k: int| 0 <= k < i ==> (#[trigger] out@[k])@ == resolve_spec(rs[k], t@),
            forall|a: int, b: int|
                0 <= a < i && 0 <= b < i && a != b ==> (#[trigger] out@[a])@.name != (
                #[trigger] out@[b])@.name,
        decreases raws@.len() - i,
    {
        let raw = &raws[i];
        assert(rs[i as int] == raw@);
        let name = match t.lookup(raw.name) {
            Ok(s) => s,
            Err(_) => {
                proof {
                    assert(!resolves(rs[i as int], t@));
                }
                return Err(Error::CorruptFormat);
            },
        };
        let mut acl: Vec<Access> = Vec::new();
        let mut j: usize = 0;
        while j < raw.acl.len()
            invariant
                j <= raw.acl@.len(),
                i < rs.len(),
                rs == records_view(raws@),
                rs[i as int] == raw@,
                acl@.len() == j,
                forall|k: int| 0 <= k < j ==> (#[trigger] raw.acl@[k]).1 < t@.len(),
                forall|k: int|
                    0 <= k < j ==> (#[trigger] acl@[k]).view_pair() == (
                        raw.acl@[k].0,
                        t@[raw.acl@[k].1 as int],
                    ),
            decreases raw.acl@.len() - j,
        {
            let (bits, idx) = raw.acl[j];
            let principal = match t.lookup(idx) {
                Ok(s) => s,
                Err(_) => {
                    proof {
                        assert(rs[i as int].acl[j as int] == raw.acl@[j as int]);
                        assert(!resolves(rs[i as int], t@));
                    }
                    return Err(Error::CorruptFormat);
                },
            };
            acl.push(Access::from_bits(bits, principal));
            j = j + 1;
        }
        proof {
            assert forall|k: int| 0 <= k < rs[i as int].acl.len() implies (
            #[trigger] rs[i as int].acl[k]).1 < t@.len() by {
                assert(rs[i as int].acl[k] == raw.acl@[k]);
            }
            assert(resolves(rs[i as int], t@));
        }
        let mut k: usize = 0;
        while k < out.len()
            invariant
                k <= out@.len(),
                out@.len() == i,
                i < rs.len(),
                rs == records_view(raws@),
                rs[i as int] == raw@,
                resolves(rs[i as int], t@),
                t@[raw.name as int] == name@,
                forall|m: int| 0 <= m < i ==> (#[trigger] out@[m])@ == resolve_spec(rs[m], t@),
                forall|m: int| 0 <= m < k ==> (#[trigger] out@[m])@.name != name@,
            decreases out@.len() - k,
        {
            if out[k].name == name {
                proof {
                    let all = resolve_each(rs, t@);
                    assert(all.len() == rs.len());
                    assert(all[k as int] == resolve_spec(rs[k as int], t@));
                    assert(all[i as int] == resolve_spec(rs[i as int], t@));
                    assert(all[k as int].name == all[i as int].name);
                    assert(!unique_names(all));
                }
                return Err(Error::CorruptFormat);
            }
            k = k + 1;
        }
        let d = PageDescriptor {
            name,
            access_control_list: acl,
            modified: now,
            created: now,
            inodes: copy_arrays(&raw.chunks),
        };
        proof {
            assert(d@.acl =~= resolve_spec(rs[i as int], t@).acl);
            assert(d@ == resolve_spec(rs[i as int], t@));
        }
        out.push(d);
        i = i + 1;
    }
    proof {
        let all = resolve_each(rs, t@);
        assert(pages_view(out@) =~= all);
        assert forall|a: int, b: int|
            0 <= a < all.len() && 0 <= b < all.len() && a != b implies all[a].name
            != all[b].name by {
            assert(out@[a]@ == all[a]);
            assert(out@[b]@ == all[b]);
        }
    }
    Ok(out)
}

/// The stored record of a page, interning its name and principals; `TooLarge`
/// when its access list has more entries than a `u16` counts.
pub fn record_of(t: &mut StringTable, p: &PageDescriptor) -> (r: Result<RawRecord, Error>)
    ensures
        prefix_of(old(t)@, final(t)@),
        grown(old(t)@, final(t)@, seq![p@]),
        match r {
            Ok(rec) => {
                &&& p.access_control_list@.len() <= u16::MAX
                &&& record_fits(rec@)
                &&& resolves(rec@, final(t)@)
                &&& resolve_spec(rec@, final(t)@) == p@
            },
            Err(e) => p.access_control_list@.len() > u16::MAX && e == Error::TooLarge,
        },
{
    let ghost ps = seq![p@];
    assert(ps[0] == p@);
    if p.access_control_list.len() > 0xffff {
        return Err(Error::TooLarge);
    }
    let name = t.intern(p.name.as_str());
    proof {
        lemma_intern_lookup(old(t)@, p.name@, t@, name as int);
        assert(labels(ps, p.name@));
        lemma_grown_intern(old(t)@, old(t)@, p.name@, t@, name as int, ps);
    }
    let ghost t_name = t@;
    let mut acl: Vec<(u8, u64)> = Vec::new();
    let mut j: usize = 0;
    let ghost pacl = p.access_control_list@.map_values(|a: Access| a.view_pair());
    while j < p.access_control_list.len()
        invariant
            j <= p.access_control_list@.len(),
            pacl == p.access_control_list@.map_values(|a: Access| a.view_pair()),
            ps == seq![p@],
            ps[0] == p@,
            grown(old(t)@, t@, ps),
            prefix_of(old(t)@, t@),
            prefix_of(t_name, t@),
            name < t_name.len(),
            t_name[name as int] == p.name@,
            acl@.len() == j,
            forall|k: int| 0 <= k < j ==> (#[trigger] acl@[k]).1 < t@.len(),
            forall|k: int| 0 <= k < j ==> (acl@[k].0, t@[acl@[k].1 as int]) == #[trigger] pacl[k],
        decreases p.access_control_list@.len() - j,
    {
        let a = &p.access_control_list[j];
        let ghost t_before = t@;
        let idx = t.intern(a.principal().as_str());
        proof {
            lemma_intern_lookup(t_before, a.principal_spec(), t@, idx as int);
            assert(pacl[j as int] == a.view_pair());
            assert(p@.acl[j as int].1 == a.principal_spec());
            assert(ps[0].acl[j as int].1 == a.principal_spec());
            assert(labels(ps, a.principal_spec()));
            lemma_grown_intern(old(t)@, t_before, a.principal_spec(), t@, idx as int, ps);
        }
        acl.push((a.bits(), idx));
        j = j + 1;
        proof {
            assert forall|k: int| 0 <= k < j implies (#[trigger] acl@[k]).1 < t@.len() by {}
            assert forall|k: int| 0 <= k < j implies (acl@[k].0, t@[acl@[k].1 as int]) == #[trigger] pacl[k] by {
                if k < j - 1 {
                    assert(t@[acl@[k].1 as int] == t_before[acl@[k].1 as int]);
                }
            }
        }
    }
    let rec = RawRecord { name, acl, chunks: copy_arrays(&p.inodes) };
    let _n = rec.chunks.len();
    proof {
        assert(rec.chunks@.len() <= usize::MAX);
        assert(usize::MAX <= u64::MAX);
        assert(record_fits(rec@));
        assert(rec@.name < t@.len());
        assert(resolve_spec(rec@, t@).name == p.name@);
        assert forall|k: int| 0 <= k < rec@.acl.len() implies (#[trigger] rec@.acl[k]).1
            < t@.len() by {}
        assert(resolve_spec(rec@, t@).acl =~= pacl);
        assert(resolves(rec@, t@));
        assert(resolve_spec(rec@, t@).chunks == p@.chunks);
        assert(resolve_spec(rec@, t@) == p@);
    }
    Ok(rec)
}

/// The stored records of all pages, interning names and principals.
pub fn records_of(t: &mut StringTable, pages: &Vec<PageDescriptor>) -> (r: Result<
    Vec<RawRecord>,
    Error,
>)
    ensures
        prefix_of(old(t)@, final(t)@),
        grown(old(t)@, final(t)@, pages_view(pages@)),
        (forall|i: int| 0 <= i < pages@.len() ==> (#[trigger] pages@[i]).access_control_list@.len()
            <= u16::MAX) <==> r is Ok,
        match r {
            Ok(rs) => {
                &&& rs@.len() == pages@.len()
                &&& forall|i: int| 0 <= i < rs@.len() ==> record_fits(#[trigger] rs@[i]@)
                &&& forall|i: int| 0 <= i < rs@.len() ==> (#[trigger] rs@[i]).acl@.len() <= u16::MAX
                &&& forall|i: int| 0 <= i < rs@.len() ==> resolves(#[trigger] rs@[i]@, final(t)@)
                &&& forall|i: int|
                    0 <= i < rs@.len() ==> resolve_spec(#[trigger] rs@[i]@, final(t)@) == pages@[i]@
            },
            Err(e) => e == Error::TooLarge,
        },
{
    let ghost ps = pages_view(pages@);
    let mut out: Vec<RawRecord> = Vec::new();
    let mut i: usize = 0;
    while i < pages.len()
        invariant
            i <= pages@.len(),
            prefix_of(old(t)@, t@),
            ps == pages_view(pages@),
            grown(old(t)@, t@, ps),
            forall|k: int| 0 <= k < i ==> (#[trigger] pages@[k]).access_control_list@.len() <= u16::MAX,
            out@.len() == i,
            forall|k: int| 0 <= k < i ==> record_fits(#[trigger] out@[k]@),
            forall|k: int| 0 <= k < i ==> (#[trigger] out@[k]).acl@.len() <= u16::MAX,
            forall|k: int| 0 <= k < i ==> resolves(#[trigger] out@[k]@, t@),
            forall|k: int| 0 <= k < i ==> resolve_spec(#[trigger] out@[k]@, t@) == pages@[k]@,
        decreases pages@.len() - i,
    {
        let ghost t_before = t@;
        let rec = match record_of(t, &pages[i]) {
            Ok(rec) => rec,
            Err(e) => {
                proof {
                    assert(ps[i as int] == pages@[i as int]@);
                    lemma_grown_compose(old(t)@, t_before, t@, ps, i as int);
                }
                return Err(e);
            },
        };
        proof {
            assert(ps[i as int] == pages@[i as int]@);
            lemma_grown_compose(old(t)@, t_before, t@, ps, i as int);
            assert forall|k: int| 0 <= k < i implies resolves(#[trigger] out@[k]@, t@)
                && resolve_spec(out@[k]@, t@) == pages@[k]@ by {
                lemma_resolve_prefix(out@[k]@, t_before, t@);
            }
        }
        out.push(rec);
        i = i + 1;
    }
    Ok(out)
}

} // verus!
