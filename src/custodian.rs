//! The history of snapshots, fed one message at a time.
use vstd::prelude::*;
use vstd::slice::slice_to_vec;
use crate::extract::{byte_strings_view, EmpireData, ModelDataPoint};

verus! {

/// A message to the custodian: a new snapshot, or the end of the feed.
pub enum CustodianMsg {
    Data(ModelDataPoint),
    Exit,
}

/// Keeps every snapshot received, oldest first.
pub struct ModelCustodian {
    history: Vec<ModelDataPoint>,
}

impl ModelCustodian {
    pub closed spec fn history(&self) -> Seq<ModelDataPoint> {
        self.history@
    }

    /// A custodian with no history.
    pub fn create() -> (r: ModelCustodian)
        ensures
            r.history().len() == 0,
    {
        ModelCustodian { history: Vec::new() }
    }

    /// Handles one message: a snapshot is appended and the feed goes on; the
    /// end of the feed leaves the history as it is and stops it.
    pub fn receive(&mut self, msg: CustodianMsg) -> (r: bool)
        ensures
            match msg {
                CustodianMsg::Data(d) => r && final(self).history() == old(self).history().push(d),
                CustodianMsg::Exit => !r && final(self).history() == old(self).history(),
            },
    {
        match msg {
            CustodianMsg::Data(d) => {
                self.history.push(d);
                true
            },
            CustodianMsg::Exit => false,
        }
    }

    /// Every snapshot received so far, oldest first.
    pub fn get_campaign_data(&self) -> (r: &Vec<ModelDataPoint>)
        ensures
            r@ == self.history(),
    {
        &self.history
    }

    /// The names of the empires of the latest snapshot; none before the first.
    pub fn get_empire_names(&self) -> (r: Vec<Vec<u8>>)
        ensures
            self.history().len() == 0 ==> r@.len() == 0,
            self.history().len() > 0 ==> byte_strings_view(r@) == self.history().last().empires@.map_values(
                |e: EmpireData| e.name@,
            ),
    {
        let mut names: Vec<Vec<u8>> = Vec::new();
        let n = self.history.len();
        if n == 0 {
            return names;
        }
        let latest = &self.history[n - 1];
        let mut i: usize = 0;
        while i < latest.empires.len()
            invariant
                i <= latest.empires@.len(),
                byte_strings_view(names@) == latest.empires@.take(i as int).map_values(|e: EmpireData| e.name@),
            decreases latest.empires@.len() - i,
        {
            let ghost before = byte_strings_view(names@);
            names.push(slice_to_vec(latest.empires[i].name.as_slice()));
            assert(byte_strings_view(names@) =~= before.push(latest.empires@[i as int].name@));
            assert(latest.empires@.take(i as int + 1).map_values(|e: EmpireData| e.name@) =~= latest.empires@.take(i as int).map_values(|e: EmpireData| e.name@).push(latest.empires@[i as int].name@));
            i += 1;
        }
        assert(latest.empires@.take(i as int) =~= latest.empires@);
        names
    }
}

} // verus!
