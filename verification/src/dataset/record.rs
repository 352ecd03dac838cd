//! The record of a labelled image, as a store of such records holds it.
use crate::process::msgpack::{
    field, fills, last_named, law_unpack_unique, lemma_elems_view_at, msg_unpack, views,
    MsgObject, MsgView,
};
use vstd::prelude::*;

verus! {

/// The label and the bytes of the image of a record. The record is the
/// first of the values, an array: its first element is a dictionary that
/// holds the bytes of the image under `data`, its second is the label.
pub open spec fn record_of(values: Seq<MsgView>) -> Option<(u64, Seq<u8>)> {
    if values.len() == 0 {
        None
    } else {
        match values[0] {
            MsgView::Array(elems) => if elems.len() < 2 {
                None
            } else {
                match (elems[0], elems[1]) {
                    (MsgView::Dict(entries), MsgView::UInt(label)) => match last_named(
                        entries,
                        "data"@,
                    ) {
                        Some(MsgView::Bin(image)) => Some((label, image)),
                        _ => None,
                    },
                    _ => None,
                }
            },
            _ => None,
        }
    }
}

/// Reads the label and the bytes of the image out of the bytes of a
/// record. Nothing is returned where the bytes are no values, or the values
/// no record.
pub fn process(data: &[u8]) -> (r: Option<(u64, Vec<u8>)>)
    ensures
        match r {
            Some((label, image)) => exists|values: Seq<MsgView>|
                fills(data@, values) && #[trigger] record_of(values) == Some((label, image@)),
            None => forall|values: Seq<MsgView>|
                fills(data@, values) ==> #[trigger] record_of(values) is None,
        },
{
    let values = match msg_unpack(data) {
        Some(values) => values,
        None => {
            return None;
        },
    };
    let ghost read = views(values@);
    proof {
        assert forall|other: Seq<MsgView>| fills(data@, other) implies other == read by {
            law_unpack_unique(data@, other, read);
        }
    }
    if values.len() == 0 {
        return None;
    }
    let elems = match &values[0] {
        MsgObject::Array(elems) => elems,
        _ => {
            return None;
        },
    };
    if elems.len() < 2 {
        proof {
            if elems@.len() > 0 {
                lemma_elems_view_at(elems@, elems@.len() as int, 0);
            }
        }
        return None;
    }
    proof {
        lemma_elems_view_at(elems@, elems@.len() as int, 0);
        lemma_elems_view_at(elems@, elems@.len() as int, 1);
    }
    let label = match &*elems[1] {
        MsgObject::UInt(label) => *label,
        _ => {
            return None;
        },
    };
    let entries = match &*elems[0] {
        MsgObject::Dict(entries) => entries,
        _ => {
            return None;
        },
    };
    let key = "data".to_owned();
    let bin = match field(entries, &key) {
        Some(MsgObject::Bin(bin)) => bin,
        _ => {
            return None;
        },
    };
    let mut image: Vec<u8> = Vec::new();
    let mut i: usize = 0;
    while i < bin.len()
        invariant
            i <= bin@.len(),
            image@ == bin@.take(i as int),
        decreases bin@.len() - i,
    {
        image.push(bin[i]);
        proof {
            assert(image@ =~= bin@.take(i + 1));
        }
        i += 1;
    }
    proof {
        assert(bin@.take(i as int) =~= bin@);
        assert(record_of(read) == Some((label, image@)));
    }
    Some((label, image))
}

} // verus!
