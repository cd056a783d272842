//! The entry model: one playlist record, its mathematical view, and
//! the property accessor that resolves `name`, `url` and free-form
//! attributes through one interface.

use vstd::prelude::*;
use crate::processor::{
    keeps, ChannelListTransformer, FilteringTransformer, GetProperty, PropertyError,
};
use crate::text::str_eq;

verus! {

/// The resource an entry points to: a network URL or a local path.
#[derive(Clone, Debug, PartialEq, Eq)]
pub enum Target {
    Url(String),
    Path(String),
}

/// The view of a target.
#[verifier::ext_equal]
pub enum TargetView {
    Url(Seq<char>),
    Path(Seq<char>),
}

impl View for Target {
    type V = TargetView;

    open spec fn view(&self) -> TargetView {
        match self {
            Target::Url(u) => TargetView::Url(u@),
            Target::Path(p) => TargetView::Path(p@),
        }
    }
}

/// One playlist record. The duration is kept as the decimal text it
/// was written with: the pipeline never computes with it, and the
/// codec reproduces it byte for byte. Attribute keys are unique in
/// entries read from well-formed playlists; should duplicates occur,
/// a lookup resolves to the first pair and the encoder re-emits every
/// pair in its insertion order.
#[derive(Clone, Debug, PartialEq, Eq)]
pub struct Entry {
    pub duration: String,
    pub display_name: String,
    pub attributes: Vec<(String, String)>,
    pub target: Target,
}

/// The view of an entry: every field as a character sequence.
#[verifier::ext_equal]
pub struct EntryView {
    pub duration: Seq<char>,
    pub display_name: Seq<char>,
    pub attributes: Seq<(Seq<char>, Seq<char>)>,
    pub target: TargetView,
}

impl View for Entry {
    type V = EntryView;

    open spec fn view(&self) -> EntryView {
        EntryView {
            duration: self.duration@,
            display_name: self.display_name@,
            attributes: Seq::new(
                self.attributes@.len(),
                |i: int| (self.attributes@[i].0@, self.attributes@[i].1@),
            ),
            target: self.target@,
        }
    }
}

/// The value of the first attribute named `key`, if any: with unique
/// keys the only one, with duplicates the earliest wins.
pub open spec fn attr_lookup(attrs: Seq<(Seq<char>, Seq<char>)>, key: Seq<char>) -> Option<
    Seq<char>,
>
    decreases attrs.len(),
{
    if attrs.len() == 0 {
        None
    } else if attrs[0].0 == key {
        Some(attrs[0].1)
    } else {
        attr_lookup(attrs.drop_first(), key)
    }
}

/// The three-tier property resolution: the computed properties `name`
/// and `url` first, then the raw attributes.
pub open spec fn spec_get_entry(e: EntryView, prop: Seq<char>) -> Result<
    Option<Seq<char>>,
    PropertyError,
> {
    if prop == "name"@ {
        Ok(Some(e.display_name))
    } else if prop == "url"@ {
        match e.target {
            TargetView::Url(u) => Ok(Some(u)),
            TargetView::Path(_) => Err(PropertyError::NotAUrl),
        }
    } else {
        Ok(attr_lookup(e.attributes, prop))
    }
}

impl GetProperty for Entry {
    open spec fn spec_get(&self, prop: Seq<char>) -> Result<Option<Seq<char>>, PropertyError> {
        spec_get_entry(self@, prop)
    }

    fn get(&self, prop: &str) -> (r: Result<Option<String>, PropertyError>) {
        if str_eq(prop, "name") {
            Ok(Some(self.display_name.clone()))
        } else if str_eq(prop, "url") {
            match &self.target {
                Target::Url(u) => Ok(Some(u.clone())),
                Target::Path(_) => Err(PropertyError::NotAUrl),
            }
        } else {
            let n = self.attributes.len();
            let mut i: usize = 0;
            proof {
                assert(self@.attributes.skip(0) =~= self@.attributes);
            }
            while i < n
                invariant
                    n == self.attributes.len(),
                    0 <= i <= n,
                    prop@ != "name"@,
                    prop@ != "url"@,
                    attr_lookup(self@.attributes, prop@) == attr_lookup(
                        self@.attributes.skip(i as int),
                        prop@,
                    ),
                decreases n - i,
            {
                let hit = str_eq(self.attributes[i].0.as_str(), prop);
                proof {
                    assert(self@.attributes.skip(i as int)[0] == self@.attributes[i as int]);
                    assert(self@.attributes[i as int].0 == self.attributes@[i as int].0@);
                }
                if hit {
                    return Ok(Some(self.attributes[i].1.clone()));
                }
                proof {
                    assert(self@.attributes.skip(i as int).drop_first() =~= self@.attributes.skip(
                        i as int + 1,
                    ));
                }
                i += 1;
            }
            proof {
                assert(self@.attributes.skip(n as int) =~= Seq::<(Seq<char>, Seq<char>)>::empty());
            }
            Ok(None)
        }
    }
}

/// The degenerate filter: filtering on the empty property name with
/// the empty expected value drops every entry that has no attribute
/// with an empty key.
pub proof fn lemma_degenerate_filter(f: FilteringTransformer, chans: Seq<Entry>)
    requires
        f.prop@ == Seq::<char>::empty(),
        f.value@ == Seq::<char>::empty(),
        forall|i: int|
            0 <= i < chans.len() ==> attr_lookup(
                (#[trigger] chans[i])@.attributes,
                Seq::<char>::empty(),
            ) is None,
    ensures
        f.spec_transform(chans) == Seq::<Entry>::empty(),
{
    let pred = |c: Entry| keeps(f.prop@, f.value@, c);
    assert forall|i: int| 0 <= i < chans.len() implies !pred(#[trigger] chans[i]) by {
        reveal_strlit("name");
        reveal_strlit("url");
        assert(f.prop@.len() == 0);
        assert("name"@.len() == 4);
        assert("url"@.len() == 3);
        assert(chans[i].spec_get(f.prop@) == Ok::<Option<Seq<char>>, PropertyError>(None));
    }
    crate::processor::lemma_filter_none(chans, pred);
}

} // verus!
