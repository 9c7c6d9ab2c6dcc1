//! Records of a mesh.
use crate::record::Record;
use vstd::prelude::*;

verus! {

/// The place of a bone in the skeleton: its parent and its children.
#[derive(Clone, Copy, Debug)]
pub struct FMeshSkeleton {
    pub parent_bone_index: u8,
    pub child_bone_count: u8,
    pub child_array_start_index: u8,
}

impl Record for FMeshSkeleton {
    open spec fn width() -> nat {
        3
    }

    open spec fn encoding(self, little: bool) -> Seq<u8> {
        seq![self.parent_bone_index, self.child_bone_count, self.child_array_start_index]
    }

    open spec fn decoding(bytes: Seq<u8>, little: bool) -> Self {
        FMeshSkeleton {
            parent_bone_index: bytes[0],
            child_bone_count: bytes[1],
            child_array_start_index: bytes[2],
        }
    }

    open spec fn exact(bytes: Seq<u8>, little: bool) -> bool {
        true
    }

    proof fn lemma_width(self, little: bool) {
    }

    proof fn lemma_decode_encode(self, little: bool) {
    }

    proof fn lemma_encode_decode(bytes: Seq<u8>, little: bool) {
        assert(Self::decoding(bytes, little).encoding(little) =~= bytes);
    }

    fn byte_len() -> (n: usize) {
        3
    }

    fn put(&self, out: &mut Vec<u8>, little: bool) {
        out.push(self.parent_bone_index);
        out.push(self.child_bone_count);
        out.push(self.child_array_start_index);
        assert(out@ =~= old(out)@ + self.encoding(little));
    }

    fn get(data: &[u8], pos: usize, little: bool) -> (record: Self) {
        let len: usize = data.len();
        FMeshSkeleton {
            parent_bone_index: data[pos],
            child_bone_count: data[pos + 1],
            child_array_start_index: data[pos + 2],
        }
    }
}

} // verus!
