//! A standalone group filter over a minimal channel shape, kept next
//! to the generic pipeline as its simplest instance.

use vstd::prelude::*;
use crate::text::str_eq;

verus! {

/// A channel as the group filter sees it: only its group name.
#[derive(Clone, Debug, PartialEq, Eq)]
pub struct IptvChannel {
    pub group_name: String,
}

/// Keeps exactly the channels whose group name equals `group_name`,
/// in their original order.
pub fn filter_on_group(chans: Vec<IptvChannel>, group_name: &str) -> (r: Vec<IptvChannel>)
    ensures
        r@ == chans@.filter(|c: IptvChannel| c.group_name@ == group_name@),
{
    let ghost all = chans@;
    let ghost pred = |c: IptvChannel| c.group_name@ == group_name@;
    let mut rest = chans;
    let mut out: Vec<IptvChannel> = Vec::new();
    proof {
        assert(all.take(0) =~= Seq::<IptvChannel>::empty());
        assert(Seq::<IptvChannel>::empty().filter(pred) =~= Seq::<IptvChannel>::empty());
        assert(rest@ =~= all.skip(0));
    }
    while rest.len() > 0
        invariant
            rest.len() <= all.len(),
            rest@ == all.skip(all.len() - rest.len()),
            out@ == all.take(all.len() - rest.len()).filter(pred),
            pred == (|c: IptvChannel| c.group_name@ == group_name@),
        decreases rest.len(),
    {
        let ghost k = all.len() - rest.len();
        let c = rest.remove(0);
        proof {
            assert(all.skip(k)[0] == all[k]);
            assert(rest@ =~= all.skip(k).drop_first());
            assert(all.skip(k).drop_first() =~= all.skip(k + 1));
            assert(all.take(k + 1) =~= all.take(k).push(all[k]));
        }
        let keep = str_eq(c.group_name.as_str(), group_name);
        proof {
            broadcast use vstd::prelude::Seq::lemma_filter_push;

            assert(keep == pred(c));
            assert(all.take(k).push(all[k]).filter(pred) == if pred(all[k]) {
                all.take(k).filter(pred).push(all[k])
            } else {
                all.take(k).filter(pred)
            });
        }
        if keep {
            out.push(c);
        }
    }
    proof {
        assert(all.take(all.len() as int) =~= all);
    }
    out
}

} // verus!
