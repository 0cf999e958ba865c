//! Property values and the named property map of a page.
//!
//! `Properties` keeps its entries in insertion order for lookup, but its
//! model — and therefore its encoding — is the sorted-by-key projection, so
//! the wire form never depends on insertion order.

use vstd::prelude::*;
use crate::json::{Json, JsonModel};
use crate::order::{
    lemma_sorted_by_key_props, lemma_sorted_by_key_unique_map, lemma_sorted_unique_map_equal,
    map_of, sorted_by_key, unique_keys,
};
use crate::text::{concat_plain_text, concat_texts, text_models, RichText};

verus! {

/// The value of one named property.
///
/// The title kind is the one this crate reads; every other kind is carried
/// as its opaque payload, kept verbatim for lossless re-encoding.
#[derive(Debug, PartialEq, Eq)]
pub enum PropertyValue {
    /// The page's title, as a run of rich text segments.
    Title { id: String, title: Vec<RichText> },
    /// Any other property kind, as its payload.
    Other { payload: Json },
}

/// The mathematical shape of a property value.
pub enum PropertyValueModel {
    Title { id: Seq<char>, title: Seq<Seq<char>> },
    Other { payload: JsonModel },
}

impl PropertyValue {
    /// The abstraction of this property value.
    pub open spec fn model(self) -> PropertyValueModel {
        match self {
            PropertyValue::Title { id, title } => PropertyValueModel::Title {
                id: id@,
                title: text_models(title@),
            },
            PropertyValue::Other { payload } => PropertyValueModel::Other {
                payload: payload.model(),
            },
        }
    }
}

/// The schema entry of one named property of a database, carried as its
/// opaque payload.
#[derive(Debug, PartialEq, Eq)]
pub struct PropertyConfiguration {
    /// The payload as it stands on the wire.
    pub payload: Json,
}

impl PropertyConfiguration {
    /// The abstraction of this schema entry.
    pub open spec fn model(self) -> JsonModel {
        self.payload.model()
    }
}

/// A named mapping from property name to property value.
#[derive(Debug, PartialEq, Eq)]
pub struct Properties {
    /// The entries, in insertion order; names are unique in a well-formed
    /// value.
    pub properties: Vec<(String, PropertyValue)>,
}

/// The models of a run of property entries, in the same order.
pub open spec fn entry_models(s: Seq<(String, PropertyValue)>) -> Seq<
    (Seq<char>, PropertyValueModel),
> {
    Seq::new(s.len(), |i: int| (s[i].0@, s[i].1.model()))
}

/// The texts of the first title-kind entry, if any.
pub open spec fn first_title(s: Seq<(Seq<char>, PropertyValueModel)>) -> Option<Seq<Seq<char>>>
    decreases s.len(),
{
    if s.len() == 0 {
        None
    } else if s[0].1 is Title {
        Some(s[0].1->Title_title)
    } else {
        first_title(s.subrange(1, s.len() as int))
    }
}

/// Whether some entry is of the title kind.
pub open spec fn has_title(s: Seq<(Seq<char>, PropertyValueModel)>) -> bool {
    exists|i: int| #![trigger s[i]] 0 <= i < s.len() && s[i].1 is Title
}

impl Properties {
    /// The entry models in insertion order.
    pub open spec fn model_entries(self) -> Seq<(Seq<char>, PropertyValueModel)> {
        entry_models(self.properties@)
    }

    /// The abstraction of this property map: its entries in sorted key
    /// order. Encoding goes by this model, so it cannot see insertion order.
    pub open spec fn model(self) -> Seq<(Seq<char>, PropertyValueModel)> {
        sorted_by_key(self.model_entries())
    }

    /// The name-to-value map this value denotes.
    pub open spec fn content_map(self) -> Map<Seq<char>, PropertyValueModel> {
        map_of(self.model_entries())
    }

    /// What `title` returns, as a model.
    pub open spec fn title_spec(self) -> Option<Seq<char>> {
        match first_title(self.model_entries()) {
            Option::None => None,
            Option::Some(ts) => Some(concat_texts(ts)),
        }
    }

    /// The plain text of the title property, or absent when no entry is of
    /// the title kind — never an error.
    pub fn title(&self) -> (r: Option<String>)
        ensures
            r is Some <==> has_title(self.model_entries()),
            r matches Some(s) ==> Some(s@) == self.title_spec(),
    {
        let ghost full = self.model_entries();
        let n = self.properties.len();
        let mut i: usize = 0;
        proof {
            assert(full.subrange(0, full.len() as int) =~= full);
        }
        while i < n
            invariant
                n == self.properties@.len(),
                i <= n,
                full == self.model_entries(),
                forall|j: int| 0 <= j < i ==> !(#[trigger] full[j].1 is Title),
                first_title(full) == first_title(full.subrange(i as int, full.len() as int)),
            decreases n - i,
        {
            let ghost sfx = full.subrange(i as int, full.len() as int);
            match &self.properties[i].1 {
                PropertyValue::Title { id: _, title } => {
                    proof {
                        assert(sfx[0] == full[i as int]);
                        assert(full[i as int].1 is Title);
                        assert(has_title(full)) by {
                            assert(full[i as int].1 is Title);
                        }
                        assert(first_title(full) == Some(text_models(title@)));
                    }
                    return Some(concat_plain_text(title));
                },
                PropertyValue::Other { payload: _ } => {
                    proof {
                        assert(sfx[0] == full[i as int]);
                        assert(!(full[i as int].1 is Title));
                        assert(sfx.subrange(1, sfx.len() as int) =~= full.subrange(
                            i as int + 1,
                            full.len() as int,
                        ));
                    }
                },
            }
            i = i + 1;
        }
        proof {
            assert(full.subrange(n as int, full.len() as int).len() == 0);
            if has_title(full) {
                let p = choose|p: int| #![trigger full[p]] 0 <= p < full.len() && full[p].1 is Title;
                assert(false);
            }
        }
        None
    }

    /// The rich text segments of the title property, or absent when no
    /// entry is of the title kind — never an error.
    pub fn title_object(&self) -> (r: Option<&Vec<RichText>>)
        ensures
            r is Some <==> has_title(self.model_entries()),
            r matches Some(v) ==> Some(text_models(v@)) == first_title(self.model_entries()),
    {
        let ghost full = self.model_entries();
        let n = self.properties.len();
        let mut i: usize = 0;
        proof {
            assert(full.subrange(0, full.len() as int) =~= full);
        }
        while i < n
            invariant
                n == self.properties@.len(),
                i <= n,
                full == self.model_entries(),
                forall|j: int| 0 <= j < i ==> !(#[trigger] full[j].1 is Title),
                first_title(full) == first_title(full.subrange(i as int, full.len() as int)),
            decreases n - i,
        {
            let ghost sfx = full.subrange(i as int, full.len() as int);
            match &self.properties[i].1 {
                PropertyValue::Title { id: _, title } => {
                    proof {
                        assert(sfx[0] == full[i as int]);
                        assert(has_title(full)) by {
                            assert(full[i as int].1 is Title);
                        }
                        assert(first_title(full) == Some(text_models(title@)));
                    }
                    return Some(title);
                },
                PropertyValue::Other { payload: _ } => {
                    proof {
                        assert(sfx[0] == full[i as int]);
                        assert(sfx.subrange(1, sfx.len() as int) =~= full.subrange(
                            i as int + 1,
                            full.len() as int,
                        ));
                    }
                },
            }
            i = i + 1;
        }
        proof {
            assert(full.subrange(n as int, full.len() as int).len() == 0);
            if has_title(full) {
                let p = choose|p: int| #![trigger full[p]] 0 <= p < full.len() && full[p].1 is Title;
                assert(false);
            }
        }
        None
    }
}

/// Deterministic property ordering: two property maps with unique names and
/// the same name-to-value content have the same model, whatever insertion
/// orders built them — so they encode identically.
pub proof fn lemma_properties_deterministic(p1: Properties, p2: Properties)
    requires
        unique_keys(p1.model_entries()),
        unique_keys(p2.model_entries()),
        p1.content_map() == p2.content_map(),
    ensures
        p1.model() == p2.model(),
{
    let e1 = p1.model_entries();
    let e2 = p2.model_entries();
    lemma_sorted_by_key_props(e1);
    lemma_sorted_by_key_props(e2);
    lemma_sorted_by_key_unique_map(e1);
    lemma_sorted_by_key_unique_map(e2);
    lemma_sorted_unique_map_equal(sorted_by_key(e1), sorted_by_key(e2));
}

} // verus!
