//! Campaign choices: one entry per campaign directory, built from the
//! snapshot of its newest save.
use vstd::prelude::*;
use vstd::slice::slice_to_vec;
use crate::extract::{EmpireData, ModelDataPoint};
use crate::path::bytes_eq;

verus! {

/// A campaign as offered for selection. `last_write` is the modification
/// time of its newest save, in seconds since the Unix epoch.
#[derive(Debug)]
pub struct CampaignDto {
    pub name: Vec<u8>,
    pub empires: Vec<Vec<u8>>,
    pub last_write: u64,
}

pub struct SCampaign {
    pub name: Seq<u8>,
    pub empires: Seq<Seq<u8>>,
    pub last_write: int,
}

impl CampaignDto {
    pub open spec fn view(&self) -> SCampaign {
        SCampaign {
            name: self.name@,
            empires: self.empires@.map_values(|e: Vec<u8>| e@),
            last_write: self.last_write as int,
        }
    }
}

/// An empire as offered for selection.
#[derive(Debug)]
pub struct EmpireDto {
    pub name: Vec<u8>,
}

fn copy_bytes(b: &Vec<u8>) -> (r: Vec<u8>)
    ensures
        r@ == b@,
{
    slice_to_vec(b.as_slice())
}

/// The campaign entry for a snapshot whose save was written at `last_write`.
pub fn get_campaign_option(model: &ModelDataPoint, last_write: u64) -> (r: CampaignDto)
    ensures
        r@.name == model.campaign_name@,
        r@.empires == model.empires@.map_values(|e: EmpireData| e.name@),
        r@.last_write == last_write,
{
    let mut empires: Vec<Vec<u8>> = Vec::new();
    let mut i: usize = 0;
    while i < model.empires.len()
        invariant
            i <= model.empires@.len(),
            empires@.map_values(|e: Vec<u8>| e@) == model.empires@.take(i as int).map_values(|e: EmpireData| e.name@),
        decreases model.empires@.len() - i,
    {
        let ghost before = empires@.map_values(|e: Vec<u8>| e@);
        let name = copy_bytes(&model.empires[i].name);
        empires.push(name);
        assert(empires@.map_values(|e: Vec<u8>| e@) =~= before.push(model.empires@[i as int].name@));
        assert(model.empires@.take(i as int + 1).map_values(|e: EmpireData| e.name@) =~= model.empires@.take(i as int).map_values(|e: EmpireData| e.name@).push(model.empires@[i as int].name@));
        i += 1;
    }
    assert(model.empires@.take(i as int) =~= model.empires@);
    let r = CampaignDto { name: copy_bytes(&model.campaign_name), empires, last_write };
    r
}

/// Index of the newest of `saves`, given as modification times; the first of
/// equally new ones.
pub open spec fn newest_index(times: Seq<u64>) -> int
    decreases times.len(),
{
    if times.len() <= 1 {
        0
    } else {
        let k = newest_index(times.drop_last());
        if times.last() > times[k] {
            times.len() - 1
        } else {
            k
        }
    }
}

proof fn lemma_newest_index_bounds(times: Seq<u64>)
    requires
        times.len() > 0,
    ensures
        0 <= newest_index(times) < times.len(),
    decreases times.len(),
{
    if times.len() > 1 {
        lemma_newest_index_bounds(times.drop_last());
    }
}

/// Picks the newest save by modification time; `None` when there is none.
pub fn find_newest_save(times: &Vec<u64>) -> (r: Option<usize>)
    ensures
        times@.len() == 0 ==> r is None,
        times@.len() > 0 ==> r == Some(newest_index(times@) as usize),
{
    if times.len() == 0 {
        return None;
    }
    let mut best: usize = 0;
    let mut i: usize = 1;
    assert(times@.take(1).len() == 1);
    while i < times.len()
        invariant
            1 <= i <= times@.len(),
            best < i,
            best as int == newest_index(times@.take(i as int)),
        decreases times@.len() - i,
    {
        proof {
            assert(times@.take(i as int + 1).drop_last() =~= times@.take(i as int));
            lemma_newest_index_bounds(times@.take(i as int));
        }
        if times[i] > times[best] {
            best = i;
        }
        i += 1;
    }
    assert(times@.take(i as int) =~= times@);
    Some(best)
}

/// Whether two campaign entries are the same.
pub fn campaign_eq(a: &CampaignDto, b: &CampaignDto) -> (r: bool)
    ensures
        r == (a@ == b@),
{
    if a.last_write != b.last_write || !bytes_eq(a.name.as_slice(), b.name.as_slice()) || a.empires.len() != b.empires.len() {
        proof {
            if a@ == b@ {
                assert(a.empires@.map_values(|e: Vec<u8>| e@).len() == b.empires@.map_values(|e: Vec<u8>| e@).len());
            }
        }
        return false;
    }
    let mut i: usize = 0;
    while i < a.empires.len()
        invariant
            i <= a.empires@.len(),
            a.empires@.len() == b.empires@.len(),
            forall|j: int| 0 <= j < i ==> (#[trigger] a.empires@[j])@ == b.empires@[j]@,
        decreases a.empires@.len() - i,
    {
        if !bytes_eq(a.empires[i].as_slice(), b.empires[i].as_slice()) {
            proof {
                if a@ == b@ {
                    assert(a.empires@.map_values(|e: Vec<u8>| e@)[i as int] == b.empires@.map_values(|e: Vec<u8>| e@)[i as int]);
                }
            }
            return false;
        }
        i += 1;
    }
    assert(a.empires@.map_values(|e: Vec<u8>| e@) =~= b.empires@.map_values(|e: Vec<u8>| e@));
    true
}

/// The campaign choices as a map from entry to campaign directory, built by
/// inserting the pairs in order: a later pair with an equal entry replaces
/// the directory of the earlier one.
pub open spec fn options_of(pairs: Seq<(SCampaign, Seq<u8>)>) -> Seq<(SCampaign, Seq<u8>)>
    decreases pairs.len(),
{
    if pairs.len() == 0 {
        Seq::empty()
    } else {
        let m = options_of(pairs.drop_last());
        let (c, p) = pairs.last();
        let k = index_of_campaign(m, c, 0);
        if k >= 0 {
            m.update(k, (c, p))
        } else {
            m.push((c, p))
        }
    }
}

/// Index of the first entry from `j` on that equals `c`, or -1.
pub open spec fn index_of_campaign(m: Seq<(SCampaign, Seq<u8>)>, c: SCampaign, j: int) -> int
    decreases m.len() - j,
{
    if 0 <= j < m.len() {
        if m[j].0 == c {
            j
        } else {
            index_of_campaign(m, c, j + 1)
        }
    } else {
        -1
    }
}

pub open spec fn pairs_view(v: Seq<(CampaignDto, Vec<u8>)>) -> Seq<(SCampaign, Seq<u8>)> {
    v.map_values(|x: (CampaignDto, Vec<u8>)| (x.0@, x.1@))
}

/// Index of the entry of `out` equal to `c`, if any.
fn find_campaign(out: &Vec<(CampaignDto, Vec<u8>)>, c: &CampaignDto) -> (r: Option<usize>)
    ensures
        match r {
            Some(j) => index_of_campaign(pairs_view(out@), c@, 0) == j as int && j < out@.len(),
            None => index_of_campaign(pairs_view(out@), c@, 0) == -1,
        },
{
    let ghost m = pairs_view(out@);
    let mut j: usize = 0;
    while j < out.len()
        invariant
            m == pairs_view(out@),
            j <= out@.len(),
            index_of_campaign(m, c@, 0) == index_of_campaign(m, c@, j as int),
        decreases out@.len() - j,
    {
        if campaign_eq(&out[j].0, c) {
            return Some(j);
        }
        j += 1;
    }
    None
}

/// Collects the campaign entries of several directories, one entry per
/// distinct campaign.
pub fn get_campaign_options(pairs: Vec<(CampaignDto, Vec<u8>)>) -> (r: Vec<(CampaignDto, Vec<u8>)>)
    ensures
        pairs_view(r@) == options_of(pairs_view(pairs@)),
{
    let ghost pv = pairs_view(pairs@);
    let ghost n: int = pv.len() as int;
    let mut rest = pairs;
    let mut out: Vec<(CampaignDto, Vec<u8>)> = Vec::new();
    assert(pv.take(0) =~= Seq::<(SCampaign, Seq<u8>)>::empty());
    assert(pairs_view(out@) =~= Seq::<(SCampaign, Seq<u8>)>::empty());
    assert(pv.skip(0) =~= pv);
    while rest.len() > 0
        invariant
            n == pv.len(),
            rest@.len() <= n,
            pairs_view(rest@) == pv.skip(n - rest@.len()),
            pairs_view(out@) == options_of(pv.take(n - rest@.len())),
        decreases rest@.len(),
    {
        let ghost k = n - rest@.len();
        let ghost before_r = pairs_view(rest@);
        let ghost old_rest = rest@;
        let (c, p) = rest.remove(0);
        proof {
            assert(before_r[0] == (c@, p@));
            assert(pv.skip(k)[0] == pv[k]);
            assert(pv.take(k + 1).drop_last() =~= pv.take(k));
            assert(rest@ =~= old_rest.skip(1));
            assert(pairs_view(rest@) =~= before_r.skip(1));
            assert(before_r.skip(1) =~= pv.skip(k + 1));
        }
        let ghost m = pairs_view(out@);
        match find_campaign(&out, &c) {
            Some(j) => {
                out.set(j, (c, p));
                assert(pairs_view(out@) =~= m.update(j as int, (c@, p@)));
            },
            None => {
                out.push((c, p));
                assert(pairs_view(out@) =~= m.push((c@, p@)));
            },
        }
    }
    assert(pv.take(n) =~= pv);
    out
}

} // verus!
