//! The compiled SPIR-V programs of the baker: their names, their files, and
//! the conversion of a file's bytes into the 32-bit words Vulkan takes.
use vstd::prelude::*;

verus! {

/// The programs of the baker.
#[derive(Clone, Copy, Debug, PartialEq, Eq, Structural)]
pub enum ShaderName {
    CompactionMask,
    CompactVisibility,
    Decompact,
    InitFromBakeVertex,
    InitFromBakeFragment,
    InitFromCamera,
    BakeLightProbes,
    BakeDirect,
    BakeIndirect,
    AdjustSamples,
    Preview,
}

/// The file, in the build's output directory, that holds the program.
pub fn shader_file_name(name: ShaderName) -> (r: &'static str)
    ensures
        r@ == match name {
            ShaderName::CompactionMask => "compaction_mask.spv"@,
            ShaderName::CompactVisibility => "compact_visibility.spv"@,
            ShaderName::Decompact => "decompact.spv"@,
            ShaderName::InitFromBakeVertex => "init_from_bake_vertex.spv"@,
            ShaderName::InitFromBakeFragment => "init_from_bake_fragment.spv"@,
            ShaderName::InitFromCamera => "init_from_camera.spv"@,
            ShaderName::BakeLightProbes => "bake_sh.spv"@,
            ShaderName::BakeIndirect => "bake_indirect.spv"@,
            ShaderName::AdjustSamples => "adjust_samples.spv"@,
            ShaderName::Preview => "preview.spv"@,
            ShaderName::BakeDirect => "bake_direct.spv"@,
        },
{
    match name {
        ShaderName::CompactionMask => "compaction_mask.spv",
        ShaderName::CompactVisibility => "compact_visibility.spv",
        ShaderName::Decompact => "decompact.spv",
        ShaderName::InitFromBakeVertex => "init_from_bake_vertex.spv",
        ShaderName::InitFromBakeFragment => "init_from_bake_fragment.spv",
        ShaderName::InitFromCamera => "init_from_camera.spv",
        ShaderName::BakeLightProbes => "bake_sh.spv",
        ShaderName::BakeIndirect => "bake_indirect.spv",
        ShaderName::AdjustSamples => "adjust_samples.spv",
        ShaderName::Preview => "preview.spv",
        ShaderName::BakeDirect => "bake_direct.spv",
    }
}

/// The word whose little-endian bytes are `b`.
pub open spec fn le_word(b: Seq<u8>) -> int {
    b[0] + b[1] * 0x100 + b[2] * 0x10000 + b[3] * 0x1000000
}

/// The word whose big-endian bytes are `b`.
pub open spec fn be_word(b: Seq<u8>) -> int {
    b[3] + b[2] * 0x100 + b[1] * 0x10000 + b[0] * 0x1000000
}

/// The order in which the bytes of a 32-bit word are stored: the order of
/// the machine that reads the words.
#[derive(Clone, Copy, Debug, PartialEq, Eq, Structural)]
pub enum ByteOrder {
    Little,
    Big,
}

/// The word stored in `b` in byte order `order`.
pub open spec fn word_in(order: ByteOrder, b: Seq<u8>) -> int {
    match order {
        ByteOrder::Little => le_word(b),
        ByteOrder::Big => be_word(b),
    }
}

/// The 32-bit words of a SPIR-V file, read four bytes at a time in byte
/// order `order` (the machine's own); trailing bytes that do not fill a word
/// are dropped.
pub fn load_shader_bytes(bytes: &[u8], order: ByteOrder) -> (words: Vec<u32>)
    ensures
        words@.len() == bytes@.len() / 4,
        forall|i: int|
            0 <= i < words@.len() ==> #[trigger] words@[i] == word_in(order, bytes@.subrange(4 * i, 4 * i + 4)),
{
    let mut words: Vec<u32> = Vec::with_capacity(bytes.len() / 4);
    let count = bytes.len() / 4;
    let mut i: usize = 0;
    while i < count
        invariant
            count == bytes@.len() / 4,
            i <= count,
            words@.len() == i,
            forall|k: int|
                0 <= k < i ==> #[trigger] words@[k] == word_in(order, bytes@.subrange(4 * k, 4 * k + 4)),
        decreases count - i,
    {
        proof {
            vstd::arithmetic::div_mod::lemma_fundamental_div_mod(bytes@.len() as int, 4);
            assert(4 * i + 4 <= bytes@.len());
            assert(bytes@.len() == bytes.len());
        }
        let b0 = bytes[4 * i] as u32;
        let b1 = bytes[4 * i + 1] as u32;
        let b2 = bytes[4 * i + 2] as u32;
        let b3 = bytes[4 * i + 3] as u32;
        let w = match order {
            ByteOrder::Little => b0 + b1 * 0x100 + b2 * 0x10000 + b3 * 0x1000000,
            ByteOrder::Big => b3 + b2 * 0x100 + b1 * 0x10000 + b0 * 0x1000000,
        };
        proof {
            let sub = bytes@.subrange(4 * i as int, 4 * i as int + 4);
            assert(sub[0] == b0 && sub[1] == b1 && sub[2] == b2 && sub[3] == b3);
        }
        words.push(w);
        i = i + 1;
    }
    words
}

} // verus!
