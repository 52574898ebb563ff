//! Topology names as the command line spells them.
use crate::topology::Topology;
use vstd::prelude::*;
use vstd::string::StringSliceAdditionalSpecFns;

verus! {

/// An ASCII capital letter made small; every other byte unchanged.
pub open spec fn ascii_lower(b: u8) -> u8 {
    if 65 <= b <= 90 {
        (b + 32) as u8
    } else {
        b
    }
}

/// `bytes`, with ASCII capitals made small, are exactly `word`.
pub open spec fn spells(bytes: Seq<u8>, word: Seq<u8>) -> bool {
    &&& bytes.len() == word.len()
    &&& forall|i: int| 0 <= i < bytes.len() ==> ascii_lower(#[trigger] bytes[i]) == word[i]
}

/// The topology that the UTF-8 bytes of a name select, ignoring ASCII case:
/// `star`, `chain`, `ring`, `mesh`, `smallworld` or `small_world`, `random`.
pub open spec fn named_topology(bytes: Seq<u8>, small_world: u64, random: u64) -> Option<Topology> {
    if spells(bytes, seq![115u8, 116, 97, 114]) {
        Some(Topology::Star)
    } else if spells(bytes, seq![99u8, 104, 97, 105, 110]) {
        Some(Topology::Chain)
    } else if spells(bytes, seq![114u8, 105, 110, 103]) {
        Some(Topology::Ring)
    } else if spells(bytes, seq![109u8, 101, 115, 104]) {
        Some(Topology::Mesh)
    } else if spells(bytes, seq![115u8, 109, 97, 108, 108, 119, 111, 114, 108, 100]) || spells(
        bytes,
        seq![115u8, 109, 97, 108, 108, 95, 119, 111, 114, 108, 100],
    ) {
        Some(Topology::SmallWorld(small_world))
    } else if spells(bytes, seq![114u8, 97, 110, 100, 111, 109]) {
        Some(Topology::Random(random))
    } else {
        None
    }
}

fn lower_byte(b: u8) -> (r: u8)
    ensures
        r == ascii_lower(b),
{
    if 65 <= b && b <= 90 {
        b + 32
    } else {
        b
    }
}

/// Whether `bytes`, with ASCII capitals made small, are exactly `word`.
fn spells_word(bytes: &[u8], word: &[u8]) -> (r: bool)
    ensures
        r == spells(bytes@, word@),
{
    if bytes.len() != word.len() {
        return false;
    }
    let mut i: usize = 0;
    while i < bytes.len()
        invariant
            bytes@.len() == word@.len(),
            i <= bytes@.len(),
            forall|k: int| 0 <= k < i ==> ascii_lower(#[trigger] bytes@[k]) == word@[k],
        decreases bytes@.len() - i,
    {
        if lower_byte(bytes[i]) != word[i] {
            return false;
        }
        i = i + 1;
    }
    true
}

/// The topology a command-line name selects, ignoring ASCII case; the
/// random topologies take the given thresholds.
pub fn parse_topology(name: &str, small_world: u64, random: u64) -> (t: Option<Topology>)
    ensures
        t == named_topology(name.spec_bytes(), small_world, random),
{
    let bytes = name.as_bytes();
    let star: [u8; 4] = [115, 116, 97, 114];
    let chain: [u8; 5] = [99, 104, 97, 105, 110];
    let ring: [u8; 4] = [114, 105, 110, 103];
    let mesh: [u8; 4] = [109, 101, 115, 104];
    let small_world_name: [u8; 10] = [115, 109, 97, 108, 108, 119, 111, 114, 108, 100];
    let small_world_alias: [u8; 11] = [115, 109, 97, 108, 108, 95, 119, 111, 114, 108, 100];
    let random_name: [u8; 6] = [114, 97, 110, 100, 111, 109];
    proof {
        assert(star@ =~= seq![115u8, 116, 97, 114]);
        assert(chain@ =~= seq![99u8, 104, 97, 105, 110]);
        assert(ring@ =~= seq![114u8, 105, 110, 103]);
        assert(mesh@ =~= seq![109u8, 101, 115, 104]);
        assert(small_world_name@ =~= seq![115u8, 109, 97, 108, 108, 119, 111, 114, 108, 100]);
        assert(small_world_alias@ =~= seq![115u8, 109, 97, 108, 108, 95, 119, 111, 114, 108, 100]);
        assert(random_name@ =~= seq![114u8, 97, 110, 100, 111, 109]);
    }
    if spells_word(bytes, &star) {
        Some(Topology::Star)
    } else if spells_word(bytes, &chain) {
        Some(Topology::Chain)
    } else if spells_word(bytes, &ring) {
        Some(Topology::Ring)
    } else if spells_word(bytes, &mesh) {
        Some(Topology::Mesh)
    } else if spells_word(bytes, &small_world_name) || spells_word(bytes, &small_world_alias) {
        Some(Topology::SmallWorld(small_world))
    } else if spells_word(bytes, &random_name) {
        Some(Topology::Random(random))
    } else {
        None
    }
}


} // verus!
