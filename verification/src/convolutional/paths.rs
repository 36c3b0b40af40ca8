//! Which decode paths and which codes a throughput measurement covers.

use super::simd::{path_available, preferred_path, EnableArch, ForcedPath};
use vstd::arithmetic::power2::{lemma2_to64, pow2};
use vstd::prelude::*;

verus! {

/// A decoder to measure.
#[derive(Debug, Clone, Copy, PartialEq, Eq)]
pub enum Probe {
    /// The wide decoder, held to one path.
    Simd(ForcedPath),
    /// The scalar decoder.
    Scalar,
}

/// All paths of the wide decoder, in the order of a sweep.
pub open spec fn all_paths() -> Seq<ForcedPath> {
    seq![
        ForcedPath::RegisterAvx512,
        ForcedPath::RegisterAvx2,
        ForcedPath::RegisterSse41,
        ForcedPath::Register128,
        ForcedPath::ShuffleAvx512,
        ForcedPath::ShuffleAvx2,
        ForcedPath::ShuffleSse41,
        ForcedPath::Shuffle128,
        ForcedPath::PermuteAvx512,
        ForcedPath::OctLookupAvx512,
        ForcedPath::OctLookupAvx2,
        ForcedPath::OctLookupSse41,
        ForcedPath::OctLookup128,
    ]
}

/// The path can decode this code on a machine with these widths.
pub open spec fn can_decode(path: ForcedPath, rate: int, order: int, arch: EnableArch) -> bool {
    order >= 4 && path_available(path, rate, order, arch)
}

/// Those of the first `n` paths that can decode this code.
pub open spec fn listed_paths(rate: int, order: int, arch: EnableArch, n: nat) -> Seq<Probe>
    decreases n,
{
    if n == 0 {
        Seq::empty()
    } else {
        let path = all_paths()[n - 1];
        let before = listed_paths(rate, order, arch, (n - 1) as nat);
        if can_decode(path, rate, order, arch) {
            before.push(Probe::Simd(path))
        } else {
            before
        }
    }
}

/// Whether a path can decode this code on a machine with these widths.
pub fn is_valid_path(path: ForcedPath, rate: u32, order: u32, arch: EnableArch) -> (valid: bool)
    ensures
        valid == can_decode(path, rate as int, order as int, arch),
{
    if order < 4 {
        return false;
    }
    match path {
        ForcedPath::RegisterAvx512 => rate <= 3 && 7 <= order && order <= 10 && arch.avx512,
        ForcedPath::RegisterAvx2 => rate <= 3 && 6 <= order && order <= 9 && arch.avx2,
        ForcedPath::RegisterSse41 => rate <= 3 && 5 <= order && order <= 8 && arch.sse41,
        ForcedPath::Register128 => rate <= 3 && 5 <= order && order <= 8,
        ForcedPath::ShuffleAvx512 => rate <= 3 && order >= 6 && arch.avx512,
        ForcedPath::ShuffleAvx2 => rate <= 3 && order >= 5 && arch.avx2,
        ForcedPath::ShuffleSse41 => rate <= 3 && arch.sse41,
        ForcedPath::Shuffle128 => rate <= 3,
        ForcedPath::PermuteAvx512 => rate <= 6 && order >= 6 && arch.avx512,
        ForcedPath::OctLookupAvx512 => order >= 6 && arch.avx512,
        ForcedPath::OctLookupAvx2 => order >= 5 && arch.avx2,
        ForcedPath::OctLookupSse41 => arch.sse41,
        ForcedPath::OctLookup128 => true,
    }
}

/// Every decoder that can decode this code: the paths of the wide one, then the
/// scalar one.
pub fn valid_paths(rate: u32, order: u32, arch: EnableArch) -> (paths: Vec<Probe>)
    ensures
        paths@ == listed_paths(rate as int, order as int, arch, 13).push(Probe::Scalar),
{
    let all: [ForcedPath; 13] = [
        ForcedPath::RegisterAvx512,
        ForcedPath::RegisterAvx2,
        ForcedPath::RegisterSse41,
        ForcedPath::Register128,
        ForcedPath::ShuffleAvx512,
        ForcedPath::ShuffleAvx2,
        ForcedPath::ShuffleSse41,
        ForcedPath::Shuffle128,
        ForcedPath::PermuteAvx512,
        ForcedPath::OctLookupAvx512,
        ForcedPath::OctLookupAvx2,
        ForcedPath::OctLookupSse41,
        ForcedPath::OctLookup128,
    ];
    assert(all@ =~= all_paths());
    let mut paths: Vec<Probe> = Vec::new();
    let mut i: usize = 0;
    while i < 13
        invariant
            i <= 13,
            all@ == all_paths(),
            paths@ == listed_paths(rate as int, order as int, arch, i as nat),
        decreases 13 - i,
    {
        if is_valid_path(all[i], rate, order, arch) {
            paths.push(Probe::Simd(all[i]));
        }
        i = i + 1;
    }
    paths.push(Probe::Scalar);
    paths
}

/// The position of a path in a sweep.
pub open spec fn place_of_path(path: ForcedPath) -> int {
    match path {
        ForcedPath::RegisterAvx512 => 0,
        ForcedPath::RegisterAvx2 => 1,
        ForcedPath::RegisterSse41 => 2,
        ForcedPath::Register128 => 3,
        ForcedPath::ShuffleAvx512 => 4,
        ForcedPath::ShuffleAvx2 => 5,
        ForcedPath::ShuffleSse41 => 6,
        ForcedPath::Shuffle128 => 7,
        ForcedPath::PermuteAvx512 => 8,
        ForcedPath::OctLookupAvx512 => 9,
        ForcedPath::OctLookupAvx2 => 10,
        ForcedPath::OctLookupSse41 => 11,
        ForcedPath::OctLookup128 => 12,
    }
}

/// A sweep leaves out no path that can run and takes in none that cannot.
pub proof fn lemma_valid_paths_complete(
    rate: int,
    order: int,
    arch: EnableArch,
    path: ForcedPath,
    n: nat,
)
    requires
        n <= 13,
    ensures
        listed_paths(rate, order, arch, n).contains(Probe::Simd(path)) <==> (can_decode(
            path,
            rate,
            order,
            arch,
        ) && place_of_path(path) < n),
    decreases n,
{
    if n > 0 {
        lemma_valid_paths_complete(rate, order, arch, path, (n - 1) as nat);
        let before = listed_paths(rate, order, arch, (n - 1) as nat);
        let last = all_paths()[n - 1];
        let probe = Probe::Simd(path);
        assert(place_of_path(last) == n - 1);
        assert(last == path <==> place_of_path(path) == n - 1);
        let after = before.push(Probe::Simd(last));
        assert(after.contains(probe) <==> (before.contains(probe) || last == path)) by {
            if before.contains(probe) {
                let i = choose|i: int| 0 <= i < before.len() && before[i] == probe;
                assert(after[i] == probe);
            }
            if last == path {
                assert(after[before.len() as int] == probe);
            }
            if after.contains(probe) {
                let i = choose|i: int| 0 <= i < after.len() && after[i] == probe;
                if i < before.len() {
                    assert(before[i] == probe);
                }
            }
        }
    }
}

/// The polynomials measured by default for a rate and an order.
pub open spec fn default_taps(rate: u32, order: u32) -> Option<Seq<u16>> {
    match (rate, order) {
        (2, 4) => Some(seq![0o17u16, 0o13]),
        (2, 5) => Some(seq![0o27u16, 0o23]),
        (2, 6) => Some(seq![0o65u16, 0o57]),
        (2, 7) => Some(seq![0o155u16, 0o117]),
        (2, 8) => Some(seq![0o367u16, 0o225]),
        (2, 9) => Some(seq![0o657u16, 0o435]),
        (2, 10) => Some(seq![0o1627u16, 0o1063]),
        (2, 11) => Some(seq![0o2365u16, 0o3073]),
        (2, 12) => Some(seq![0o4325u16, 0o6747]),
        (2, 13) => Some(seq![0o10627u16, 0o16765]),
        (2, 14) => Some(seq![0o21663u16, 0o32275]),
        (2, 15) => Some(seq![0o44735u16, 0o63057]),
        (3, 9) => Some(seq![0o755u16, 0o633, 0o447]),
        (3, 10) => Some(seq![0o1157u16, 0o1227, 0o1755]),
        (3, 11) => Some(seq![0o2335u16, 0o2531, 0o3477]),
        (3, 12) => Some(seq![0o4713u16, 0o5175, 0o6557]),
        (4, 7) => Some(seq![0o133u16, 0o175, 0o107, 0o101]),
        (6, 15) => Some(seq![0o42631u16, 0o47245, 0o56507, 0o73363, 0o77267, 0o64537]),
        _ => None,
    }
}

/// The polynomials measured by default for a rate and an order, if there are any.
pub fn default_polys(rate: u32, order: u32) -> (polys: Option<Vec<u16>>)
    ensures
        polys is Some <==> default_taps(rate, order) is Some,
        polys matches Some(p) ==> p@ == default_taps(rate, order)->0 && p@.len() == rate,
        polys is Some <==> (rate == 2 && 4 <= order <= 15) || (rate == 3 && 9 <= order <= 12) || (
        rate == 4 && order == 7) || (rate == 6 && order == 15),
        rate == 2 && order == 4 ==> (polys matches Some(p) && p@ == seq![0o17u16, 0o13]),
        rate == 2 && order == 5 ==> (polys matches Some(p) && p@ == seq![0o27u16, 0o23]),
        rate == 2 && order == 6 ==> (polys matches Some(p) && p@ == seq![0o65u16, 0o57]),
        rate == 2 && order == 7 ==> (polys matches Some(p) && p@ == seq![0o155u16, 0o117]),
        rate == 2 && order == 8 ==> (polys matches Some(p) && p@ == seq![0o367u16, 0o225]),
        rate == 2 && order == 9 ==> (polys matches Some(p) && p@ == seq![0o657u16, 0o435]),
        rate == 2 && order == 10 ==> (polys matches Some(p) && p@ == seq![0o1627u16, 0o1063]),
        rate == 2 && order == 11 ==> (polys matches Some(p) && p@ == seq![0o2365u16, 0o3073]),
        rate == 2 && order == 12 ==> (polys matches Some(p) && p@ == seq![0o4325u16, 0o6747]),
        rate == 2 && order == 13 ==> (polys matches Some(p) && p@ == seq![0o10627u16, 0o16765]),
        rate == 2 && order == 14 ==> (polys matches Some(p) && p@ == seq![0o21663u16, 0o32275]),
        rate == 2 && order == 15 ==> (polys matches Some(p) && p@ == seq![0o44735u16, 0o63057]),
        rate == 3 && order == 9 ==> (polys matches Some(p) && p@ == seq![0o755u16, 0o633, 0o447]),
        rate == 3 && order == 10 ==> (polys matches Some(p) && p@ == seq![0o1157u16, 0o1227, 0o1755]),
        rate == 3 && order == 11 ==> (polys matches Some(p) && p@ == seq![0o2335u16, 0o2531, 0o3477]),
        rate == 3 && order == 12 ==> (polys matches Some(p) && p@ == seq![0o4713u16, 0o5175, 0o6557]),
        rate == 4 && order == 7 ==> (polys matches Some(p) && p@ == seq![0o133u16, 0o175, 0o107, 0o101]),
        rate == 6 && order == 15 ==> (polys matches Some(p) && p@ == seq![0o42631u16, 0o47245, 0o56507, 0o73363, 0o77267, 0o64537]),
{
    let polys: Option<Vec<u16>> = match (rate, order) {
            (2, 4) => Some(vec![0o17, 0o13]),
            (2, 5) => Some(vec![0o27, 0o23]),
            (2, 6) => Some(vec![0o65, 0o57]),
            (2, 7) => Some(vec![0o155, 0o117]),
            (2, 8) => Some(vec![0o367, 0o225]),
            (2, 9) => Some(vec![0o657, 0o435]),
            (2, 10) => Some(vec![0o1627, 0o1063]),
            (2, 11) => Some(vec![0o2365, 0o3073]),
            (2, 12) => Some(vec![0o4325, 0o6747]),
            (2, 13) => Some(vec![0o10627, 0o16765]),
            (2, 14) => Some(vec![0o21663, 0o32275]),
            (2, 15) => Some(vec![0o44735, 0o63057]),
            (3, 9) => Some(vec![0o755, 0o633, 0o447]),
            (3, 10) => Some(vec![0o1157, 0o1227, 0o1755]),
            (3, 11) => Some(vec![0o2335, 0o2531, 0o3477]),
            (3, 12) => Some(vec![0o4713, 0o5175, 0o6557]),
            (4, 7) => Some(vec![0o133, 0o175, 0o107, 0o101]),
            (6, 15) => Some(vec![0o42631, 0o47245, 0o56507, 0o73363, 0o77267, 0o64537]),
        _ => None,
    };
    assert(polys matches Some(p) ==> p@ =~= default_taps(rate, order)->0);
    polys
}

/// The polynomials measured by default are as many as the rate says, and each has the
/// highest and the lowest of `order` bits set and none above.
pub proof fn lemma_default_taps(rate: u32, order: u32, i: int)
    requires
        default_taps(rate, order) is Some,
        0 <= i < default_taps(rate, order)->0.len(),
    ensures
        default_taps(rate, order)->0.len() == rate,
        4 <= order <= 15,
        default_taps(rate, order)->0[i] % 2 == 1,
        pow2((order - 1) as nat) <= default_taps(rate, order)->0[i] < pow2(order as nat),
{
    lemma2_to64();
}

/// A path that runs on a machine runs on every machine with more widths, and the plain
/// lookup runs on all of them, for any rate.
pub proof fn lemma_wider_machine(
    path: ForcedPath,
    rate: int,
    order: int,
    arch: EnableArch,
    wider: EnableArch,
)
    requires
        arch.avx512 ==> wider.avx512,
        arch.avx2 ==> wider.avx2,
        arch.sse41 ==> wider.sse41,
    ensures
        can_decode(path, rate, order, arch) ==> can_decode(path, rate, order, wider),
        can_decode(ForcedPath::OctLookup128, rate, order, arch) <==> order >= 4,
        rate <= 3 ==> (can_decode(ForcedPath::Shuffle128, rate, order, arch) <==> order >= 4),
{
}

/// How many 16-bit metrics one vector of a path holds.
pub open spec fn lanes_of(path: ForcedPath) -> nat {
    match path {
        ForcedPath::RegisterAvx512 | ForcedPath::ShuffleAvx512 | ForcedPath::PermuteAvx512
        | ForcedPath::OctLookupAvx512 => 32,
        ForcedPath::RegisterAvx2 | ForcedPath::ShuffleAvx2 | ForcedPath::OctLookupAvx2 => 16,
        _ => 8,
    }
}

/// The metrics of a path stay in registers.
pub open spec fn is_register(path: ForcedPath) -> bool {
    path is RegisterAvx512 || path is RegisterAvx2 || path is RegisterSse41 || path is Register128
}

/// The path looks costs up within one vector.
pub open spec fn is_shuffle(path: ForcedPath) -> bool {
    path is ShuffleAvx512 || path is ShuffleAvx2 || path is ShuffleSse41 || path is Shuffle128
}

/// A path can decode a code where the machine has its vectors and the states fill a
/// vector; in registers, where they fill from two to sixteen vectors. A vector of eight
/// costs serves three outputs at most, one of 64 serves six.
pub proof fn lemma_path_fits(path: ForcedPath, rate: nat, order: nat, arch: EnableArch)
    requires
        order >= 4,
    ensures
        ({
            let states = pow2((order - 1) as nat);
            let lanes = lanes_of(path);
            let has_width = if lanes == 32 {
                arch.avx512
            } else if lanes == 16 {
                arch.avx2
            } else {
                arch.sse41 || path is Register128 || path is Shuffle128 || path is OctLookup128
            };
            can_decode(path, rate as int, order as int, arch) <==> {
                &&& has_width
                &&& lanes <= states
                &&& is_register(path) ==> 2 * lanes <= states <= 16 * lanes
                &&& is_register(path) || is_shuffle(path) ==> pow2(rate) <= 8
                &&& path is PermuteAvx512 ==> pow2(rate) <= 64
            }
        }),
{
    lemma2_to64();
    if order > 10 {
        vstd::arithmetic::power2::lemma_pow2_strictly_increases(9, (order - 1) as nat);
    }
    if rate > 6 {
        vstd::arithmetic::power2::lemma_pow2_strictly_increases(6, rate);
    }
    if order > 10 && order != 11 {
        vstd::arithmetic::power2::lemma_pow2_strictly_increases(10, (order - 1) as nat);
    }
}

/// Of the paths that work the same way, the widest that can run is preferred.
pub proof fn lemma_preferred_is_widest(
    rate: int,
    order: int,
    arch: EnableArch,
    other: ForcedPath,
)
    requires
        order >= 4,
        can_decode(other, rate, order, arch),
        is_register(other) == is_register(preferred_path(rate, order, arch)),
        is_shuffle(other) == is_shuffle(preferred_path(rate, order, arch)),
    ensures
        lanes_of(other) <= lanes_of(preferred_path(rate, order, arch)),
{
}

/// The path that is expected to run fastest can always run.
pub proof fn lemma_preferred_runs(rate: int, order: int, arch: EnableArch)
    requires
        order >= 4,
    ensures
        can_decode(preferred_path(rate, order, arch), rate, order, arch),
{
}

} // verus!
