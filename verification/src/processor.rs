//! The transformation pipeline: a property accessor capability, a
//! filtering transformer, and an ordered chain of transformer stages
//! applied left to right over a channel list.

pub mod filter;

use vstd::prelude::*;

verus! {

/// Failure of a single property lookup.
#[derive(Clone, Copy, Debug, PartialEq, Eq)]
pub enum PropertyError {
    /// The `url` property was asked of an entry whose target is a
    /// local path, not a URL.
    NotAUrl,
}

/// The view of an accessor result: the found value as a character
/// sequence, its absence, or the failed lookup.
pub open spec fn accessor_result_view(r: Result<Option<String>, PropertyError>) -> Result<
    Option<Seq<char>>,
    PropertyError,
> {
    match r {
        Ok(Some(s)) => Ok(Some(s@)),
        Ok(None) => Ok(None),
        Err(e) => Err(e),
    }
}

/// The capability of resolving a named property to a string value.
pub trait GetProperty: Sized {
    /// What a lookup of `prop` returns on this value.
    spec fn spec_get(&self, prop: Seq<char>) -> Result<Option<Seq<char>>, PropertyError>;

    /// Resolves `prop` to its string value, reports its absence, or
    /// fails the single lookup.
    fn get(&self, prop: &str) -> (r: Result<Option<String>, PropertyError>)
        ensures
            accessor_result_view(r) == self.spec_get(prop@),
    ;
}

/// Whether a filter on `(prop, value)` keeps the channel `c`.
pub open spec fn keeps<C: GetProperty>(prop: Seq<char>, value: Seq<char>, c: C) -> bool {
    c.spec_get(prop) == Ok::<Option<Seq<char>>, PropertyError>(Some(value))
}

/// A transformer stage: an order-preserving map from a channel list to
/// a channel list.
pub trait ChannelListTransformer<C: GetProperty>: Sized {
    /// What this stage turns a channel list into.
    spec fn spec_transform(&self, chans: Seq<C>) -> Seq<C>;

    fn transform_channel_list(&self, chans: Vec<C>) -> (r: Vec<C>)
        ensures
            r@ == self.spec_transform(chans@),
    ;
}

/// Keeps exactly the channels whose property `prop` resolves to
/// `value`; channels whose lookup fails or finds nothing are dropped.
pub struct FilteringTransformer {
    pub prop: String,
    pub value: String,
}

impl FilteringTransformer {
    pub fn new(prop: String, value: String) -> (r: FilteringTransformer)
        ensures
            r.prop == prop,
            r.value == value,
    {
        FilteringTransformer { prop, value }
    }
}

impl<C: GetProperty> ChannelListTransformer<C> for FilteringTransformer {
    open spec fn spec_transform(&self, chans: Seq<C>) -> Seq<C> {
        chans.filter(|c: C| keeps(self.prop@, self.value@, c))
    }

    /// A stable filter: the kept channels stay in their original
    /// relative order.
    fn transform_channel_list(&self, chans: Vec<C>) -> (r: Vec<C>) {
        let ghost all = chans@;
        let ghost pred = |c: C| keeps(self.prop@, self.value@, c);
        let mut rest = chans;
        let mut out: Vec<C> = Vec::new();
        proof {
            assert(all.take(0) =~= Seq::<C>::empty());
            assert(Seq::<C>::empty().filter(pred) =~= Seq::<C>::empty());
            assert(rest@ =~= all.skip(0));
        }
        while rest.len() > 0
            invariant
                rest.len() <= all.len(),
                rest@ == all.skip(all.len() - rest.len()),
                out@ == all.take(all.len() - rest.len()).filter(pred),
                pred == (|c: C| keeps(self.prop@, self.value@, c)),
            decreases rest.len(),
        {
            let ghost k = all.len() - rest.len();
            let c = rest.remove(0);
            proof {
                assert(all.skip(k)[0] == all[k]);
                assert(rest@ =~= all.skip(k).drop_first());
                assert(all.skip(k).drop_first() =~= all.skip(k + 1));
                assert(all.take(k + 1) =~= all.take(k).push(all[k]));
            }
            let keep = match c.get(self.prop.as_str()) {
                Ok(Some(v)) => v == self.value,
                Ok(None) => false,
                Err(_) => false,
            };
            proof {
                broadcast use vstd::prelude::Seq::lemma_filter_push;

                assert(keep == pred(c));
                assert(all.take(k).push(all[k]).filter(pred) == if pred(all[k]) {
                    all.take(k).filter(pred).push(all[k])
                } else {
                    all.take(k).filter(pred)
                });
            }
            if keep {
                out.push(c);
            }
        }
        proof {
            assert(all.take(all.len() as int) =~= all);
        }
        out
    }
}

/// The identity stage: hands its input list back unchanged.
pub struct PassiveTransformer {}

impl<C: GetProperty> ChannelListTransformer<C> for PassiveTransformer {
    open spec fn spec_transform(&self, chans: Seq<C>) -> Seq<C> {
        chans
    }

    fn transform_channel_list(&self, chans: Vec<C>) -> (r: Vec<C>) {
        chans
    }
}

/// The closed set of stages a chain can hold.
pub enum Transformer {
    /// A property filter.
    Filter(FilteringTransformer),
    /// The identity stage.
    Passive(PassiveTransformer),
}

impl<C: GetProperty> ChannelListTransformer<C> for Transformer {
    open spec fn spec_transform(&self, chans: Seq<C>) -> Seq<C> {
        match self {
            Transformer::Filter(f) => f.spec_transform(chans),
            Transformer::Passive(p) => p.spec_transform(chans),
        }
    }

    fn transform_channel_list(&self, chans: Vec<C>) -> (r: Vec<C>) {
        match self {
            Transformer::Filter(f) => f.transform_channel_list(chans),
            Transformer::Passive(p) => p.transform_channel_list(chans),
        }
    }
}

/// The result of feeding `chans` through `stages`, each stage
/// consuming the previous stage's full output.
pub open spec fn spec_process_all<C: GetProperty>(stages: Seq<Transformer>, chans: Seq<C>) -> Seq<
    C,
>
    decreases stages.len(),
{
    if stages.len() == 0 {
        chans
    } else {
        spec_process_all(stages.drop_first(), stages[0].spec_transform(chans))
    }
}

/// An ordered sequence of transformer stages, applied left to right.
pub struct TransformChain(pub Vec<Transformer>);

impl Default for TransformChain {
    /// The empty chain.
    fn default() -> (r: TransformChain)
        ensures
            r.0@ == Seq::<Transformer>::empty(),
    {
        let v: Vec<Transformer> = Vec::new();
        proof {
            assert(v@ =~= Seq::<Transformer>::empty());
        }
        TransformChain(v)
    }
}

impl TransformChain {
    /// A chain of the single stage `tran`.
    pub fn new(tran: Transformer) -> (r: TransformChain)
        ensures
            r.0@ == seq![tran],
    {
        let mut v: Vec<Transformer> = Vec::new();
        v.push(tran);
        proof {
            assert(v@ =~= seq![tran]);
        }
        TransformChain(v)
    }

    /// The chain with `tran` appended after the existing stages.
    pub fn add(self, tran: Transformer) -> (r: TransformChain)
        ensures
            r.0@ == self.0@.push(tran),
    {
        let TransformChain(mut v) = self;
        v.push(tran);
        TransformChain(v)
    }

    /// Runs every stage in registration order, consuming the chain.
    pub fn process_all_channels<C: GetProperty>(self, channel_list: Vec<C>) -> (r: Vec<C>)
        ensures
            r@ == spec_process_all(self.0@, channel_list@),
    {
        let ghost all_stages = self.0@;
        let ghost all_chans = channel_list@;
        let TransformChain(mut stages) = self;
        let mut chan_vec = channel_list;
        while stages.len() > 0
            invariant
                spec_process_all(all_stages, all_chans) == spec_process_all(
                    stages@,
                    chan_vec@,
                ),
            decreases stages.len(),
        {
            let ghost before = stages@;
            let t = stages.remove(0);
            proof {
                assert(before[0] == t);
                assert(stages@ =~= before.drop_first());
            }
            chan_vec = t.transform_channel_list(chan_vec);
        }
        chan_vec
    }
}

/// Filter correctness: a filtering transformer yields exactly the
/// sublist of channels whose lookup of its property returns its
/// expected value, in their original relative order.
pub proof fn lemma_filter_correctness<C: GetProperty>(f: FilteringTransformer, chans: Seq<C>)
    ensures
        f.spec_transform(chans) == chans.filter(
            |c: C|
                c.spec_get(f.prop@) == Ok::<Option<Seq<char>>, PropertyError>(
                    Some(f.value@),
                ),
        ),
{
    let p1 = |c: C| keeps(f.prop@, f.value@, c);
    let p2 = |c: C|
        c.spec_get(f.prop@) == Ok::<Option<Seq<char>>, PropertyError>(Some(f.value@));
    assert(p1 =~= p2);
}

/// An empty transformer chain returns its input list unchanged.
pub proof fn lemma_empty_chain_identity<C: GetProperty>(chans: Seq<C>)
    ensures
        spec_process_all(Seq::<Transformer>::empty(), chans) == chans,
{
}

/// Applying the chain `[t1, t2]` equals applying `t1` and then `t2`
/// in sequence.
pub proof fn lemma_chain_composition<C: GetProperty>(t1: Transformer, t2: Transformer, chans: Seq<C>)
    ensures
        spec_process_all(seq![t1, t2], chans) == t2.spec_transform(t1.spec_transform(chans)),
{
    let s = seq![t1, t2];
    let mid = t1.spec_transform(chans);
    let fin = t2.spec_transform(mid);
    assert(s[0] == t1);
    assert(s.drop_first() =~= seq![t2]);
    assert(spec_process_all(s, chans) == spec_process_all(seq![t2], mid));
    assert(seq![t2][0] == t2);
    assert(seq![t2].drop_first() =~= Seq::<Transformer>::empty());
    assert(spec_process_all(seq![t2], mid) == spec_process_all(
        Seq::<Transformer>::empty(),
        fin,
    ));
    assert(spec_process_all(Seq::<Transformer>::empty(), fin) == fin);
}

/// A filter that no element of `s` satisfies yields the empty list.
pub proof fn lemma_filter_none<A>(s: Seq<A>, p: spec_fn(A) -> bool)
    requires
        forall|i: int| 0 <= i < s.len() ==> !p(#[trigger] s[i]),
    ensures
        s.filter(p) == Seq::<A>::empty(),
    decreases s.len(),
{
    reveal(Seq::filter);
    if s.len() > 0 {
        lemma_filter_none(s.drop_last(), p);
    }
    assert(s.filter(p) =~= Seq::<A>::empty());
}

} // verus!
