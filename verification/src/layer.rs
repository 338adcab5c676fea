//! Layers, which group models for display.

use crate::container_layout::{
    encode_layer, layer_body, layer_fits, layer_record, lemma_container_tag_names, lemma_layer_len,
    parse_layer, tag_layr, LayerModel,
};
use crate::layout::{leaf_header, lemma_dict_len};
use crate::node::NodeAttributes;
use crate::riff::{read_i32, write_chunk, write_i32, Dict, ReadError};
use crate::scene_layout::lemma_attributes_dict_wf;
use vstd::prelude::*;

verus! {

/// A layer: its identifier, and its display name and hidden flag.
#[derive(Debug)]
pub struct Layer {
    pub id: i32,
    pub attributes: NodeAttributes,
}

impl View for Layer {
    type V = LayerModel;

    open spec fn view(&self) -> LayerModel {
        LayerModel { id: self.id, attributes: self.attributes@ }
    }
}

/// What a list of layers says.
pub open spec fn layers_view(layers: Seq<Layer>) -> Seq<LayerModel> {
    Seq::new(layers.len(), |i: int| layers[i]@)
}

impl Layer {
    /// The layer with the identifier and attributes given.
    pub fn new(id: i32, attributes: NodeAttributes) -> (layer: Layer)
        ensures
            layer.id == id,
            layer.attributes == attributes,
    {
        Layer { id, attributes }
    }

    /// Appends the chunk of the layer to `out`: its identifier, the
    /// dictionary of its attributes, and -1 in the reserved field. Nothing is
    /// written where the layer cannot be written.
    pub fn write(&self, out: &mut Vec<u8>) -> (written: bool)
        ensures
            written == layer_fits(self@),
            written ==> final(out)@ == old(out)@ + encode_layer(self@),
            !written ==> final(out)@ == old(out)@,
    {
        proof {
            lemma_attributes_dict_wf(self@.attributes);
            lemma_container_tag_names();
        }
        let attributes = match self.attributes.to_dict() {
            Some(dict) => dict,
            None => {
                return false;
            },
        };
        proof {
            lemma_dict_len(attributes@);
        }
        let size = 8 + attributes.wide_size();
        if size > i32::MAX as u64 {
            return false;
        }
        proof {
            lemma_layer_len(layer_record(self@));
        }
        write_chunk("LAYR", size as u32, 0, out);
        let ghost head = out@;
        write_i32(out, self.id);
        attributes.write(out);
        write_i32(out, -1);
        assert(out@ =~= head + layer_body(layer_record(self@)));
        assert(head =~= old(out)@ + leaf_header(tag_layr(), layer_record(self@).size()));
        assert(out@ =~= old(out)@ + encode_layer(self@));
        true
    }

    /// Returns the size in bytes of the content of the layer's chunk,
    /// computed from what the layer holds now.
    pub fn get_size(&self) -> (size: i32)
        requires
            layer_fits(self@),
        ensures
            size == layer_record(self@).size(),
    {
        proof {
            lemma_attributes_dict_wf(self@.attributes);
            lemma_layer_len(layer_record(self@));
        }
        match self.attributes.to_dict() {
            Some(dict) => 8 + dict.get_size(),
            None => 0,
        }
    }

    /// Reads the layer whose chunk starts at `*cursor` and moves the cursor
    /// behind it. On failure the cursor stays where it was.
    pub fn read(input: &Vec<u8>, cursor: &mut i32) -> (result: Result<Layer, ReadError>)
        requires
            input@.len() <= i32::MAX,
        ensures
            match parse_layer(input@, *old(cursor) as int) {
                Ok((layer, next)) => result matches Ok(l) && l@ == layer && *final(cursor)
                    == next,
                Err(e) => result == Err::<Layer, ReadError>(e) && *final(cursor) == *old(cursor),
            },
    {
        let mut pos = *cursor;
        if pos < 0 || input.len() < 12 || pos as usize > input.len() - 12 {
            return Err(ReadError::CorruptContainer);
        }
        pos = pos + 12;
        let id = read_i32(input, &mut pos)?;
        let dict = Dict::read(input, &mut pos)?;
        let _reserved = read_i32(input, &mut pos)?;
        *cursor = pos;
        Ok(Layer { id, attributes: NodeAttributes::from_dict(&dict) })
    }
}

} // verus!
