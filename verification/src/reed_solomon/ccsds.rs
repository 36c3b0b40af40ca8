//! Parameters and symbol transforms for the standard CCSDS (255,223)
//! Reed-Solomon code.
//!
//! Spacecraft telemetry represents symbols in Berlekamp's dual basis, but a
//! conventional codec works in the power-of-alpha basis. The two bases are
//! related by a fixed linear map over GF(2). [`conv_to_dual`] and
//! [`dual_to_conv`] convert a byte between them, so that the conventional codec
//! can be used while the wire stays in the dual basis.
//!
//! The transform is that of CCSDS 131.0-B-1, "TM Synchronization and Channel
//! Coding", Annex D.

use super::field::{FieldLogarithm, FieldOperation};
use vstd::prelude::*;

verus! {

/// Field generator polynomial of the CCSDS code, x^8 + x^7 + x^2 + x + 1.
pub const CCSDS_PRIMITIVE_POLYNOMIAL: FieldOperation = 0x187;

/// First consecutive root of the CCSDS code generator (index form).
pub const CCSDS_FIRST_CONSECUTIVE_ROOT: FieldLogarithm = 112;

/// Primitive element power used to generate the CCSDS code roots.
pub const CCSDS_GENERATOR_ROOT_GAP: FieldLogarithm = 11;

/// Number of generator roots (parity symbols) in the CCSDS (255,223) code.
pub const CCSDS_NUM_ROOTS: usize = 32;

/// Lookup table mapping a conventional-basis byte to its CCSDS dual-basis byte.
pub const CONV_TO_DUAL: [u8; 256] = [
    0x00, 0x7b, 0xaf, 0xd4, 0x99, 0xe2, 0x36, 0x4d, 0xfa, 0x81, 0x55, 0x2e, 0x63, 0x18, 0xcc, 0xb7,
    0x86, 0xfd, 0x29, 0x52, 0x1f, 0x64, 0xb0, 0xcb, 0x7c, 0x07, 0xd3, 0xa8, 0xe5, 0x9e, 0x4a, 0x31,
    0xec, 0x97, 0x43, 0x38, 0x75, 0x0e, 0xda, 0xa1, 0x16, 0x6d, 0xb9, 0xc2, 0x8f, 0xf4, 0x20, 0x5b,
    0x6a, 0x11, 0xc5, 0xbe, 0xf3, 0x88, 0x5c, 0x27, 0x90, 0xeb, 0x3f, 0x44, 0x09, 0x72, 0xa6, 0xdd,
    0xef, 0x94, 0x40, 0x3b, 0x76, 0x0d, 0xd9, 0xa2, 0x15, 0x6e, 0xba, 0xc1, 0x8c, 0xf7, 0x23, 0x58,
    0x69, 0x12, 0xc6, 0xbd, 0xf0, 0x8b, 0x5f, 0x24, 0x93, 0xe8, 0x3c, 0x47, 0x0a, 0x71, 0xa5, 0xde,
    0x03, 0x78, 0xac, 0xd7, 0x9a, 0xe1, 0x35, 0x4e, 0xf9, 0x82, 0x56, 0x2d, 0x60, 0x1b, 0xcf, 0xb4,
    0x85, 0xfe, 0x2a, 0x51, 0x1c, 0x67, 0xb3, 0xc8, 0x7f, 0x04, 0xd0, 0xab, 0xe6, 0x9d, 0x49, 0x32,
    0x8d, 0xf6, 0x22, 0x59, 0x14, 0x6f, 0xbb, 0xc0, 0x77, 0x0c, 0xd8, 0xa3, 0xee, 0x95, 0x41, 0x3a,
    0x0b, 0x70, 0xa4, 0xdf, 0x92, 0xe9, 0x3d, 0x46, 0xf1, 0x8a, 0x5e, 0x25, 0x68, 0x13, 0xc7, 0xbc,
    0x61, 0x1a, 0xce, 0xb5, 0xf8, 0x83, 0x57, 0x2c, 0x9b, 0xe0, 0x34, 0x4f, 0x02, 0x79, 0xad, 0xd6,
    0xe7, 0x9c, 0x48, 0x33, 0x7e, 0x05, 0xd1, 0xaa, 0x1d, 0x66, 0xb2, 0xc9, 0x84, 0xff, 0x2b, 0x50,
    0x62, 0x19, 0xcd, 0xb6, 0xfb, 0x80, 0x54, 0x2f, 0x98, 0xe3, 0x37, 0x4c, 0x01, 0x7a, 0xae, 0xd5,
    0xe4, 0x9f, 0x4b, 0x30, 0x7d, 0x06, 0xd2, 0xa9, 0x1e, 0x65, 0xb1, 0xca, 0x87, 0xfc, 0x28, 0x53,
    0x8e, 0xf5, 0x21, 0x5a, 0x17, 0x6c, 0xb8, 0xc3, 0x74, 0x0f, 0xdb, 0xa0, 0xed, 0x96, 0x42, 0x39,
    0x08, 0x73, 0xa7, 0xdc, 0x91, 0xea, 0x3e, 0x45, 0xf2, 0x89, 0x5d, 0x26, 0x6b, 0x10, 0xc4, 0xbf,
];

/// Lookup table mapping a CCSDS dual-basis byte to its conventional-basis byte.
pub const DUAL_TO_CONV: [u8; 256] = [
    0x00, 0xcc, 0xac, 0x60, 0x79, 0xb5, 0xd5, 0x19, 0xf0, 0x3c, 0x5c, 0x90, 0x89, 0x45, 0x25, 0xe9,
    0xfd, 0x31, 0x51, 0x9d, 0x84, 0x48, 0x28, 0xe4, 0x0d, 0xc1, 0xa1, 0x6d, 0x74, 0xb8, 0xd8, 0x14,
    0x2e, 0xe2, 0x82, 0x4e, 0x57, 0x9b, 0xfb, 0x37, 0xde, 0x12, 0x72, 0xbe, 0xa7, 0x6b, 0x0b, 0xc7,
    0xd3, 0x1f, 0x7f, 0xb3, 0xaa, 0x66, 0x06, 0xca, 0x23, 0xef, 0x8f, 0x43, 0x5a, 0x96, 0xf6, 0x3a,
    0x42, 0x8e, 0xee, 0x22, 0x3b, 0xf7, 0x97, 0x5b, 0xb2, 0x7e, 0x1e, 0xd2, 0xcb, 0x07, 0x67, 0xab,
    0xbf, 0x73, 0x13, 0xdf, 0xc6, 0x0a, 0x6a, 0xa6, 0x4f, 0x83, 0xe3, 0x2f, 0x36, 0xfa, 0x9a, 0x56,
    0x6c, 0xa0, 0xc0, 0x0c, 0x15, 0xd9, 0xb9, 0x75, 0x9c, 0x50, 0x30, 0xfc, 0xe5, 0x29, 0x49, 0x85,
    0x91, 0x5d, 0x3d, 0xf1, 0xe8, 0x24, 0x44, 0x88, 0x61, 0xad, 0xcd, 0x01, 0x18, 0xd4, 0xb4, 0x78,
    0xc5, 0x09, 0x69, 0xa5, 0xbc, 0x70, 0x10, 0xdc, 0x35, 0xf9, 0x99, 0x55, 0x4c, 0x80, 0xe0, 0x2c,
    0x38, 0xf4, 0x94, 0x58, 0x41, 0x8d, 0xed, 0x21, 0xc8, 0x04, 0x64, 0xa8, 0xb1, 0x7d, 0x1d, 0xd1,
    0xeb, 0x27, 0x47, 0x8b, 0x92, 0x5e, 0x3e, 0xf2, 0x1b, 0xd7, 0xb7, 0x7b, 0x62, 0xae, 0xce, 0x02,
    0x16, 0xda, 0xba, 0x76, 0x6f, 0xa3, 0xc3, 0x0f, 0xe6, 0x2a, 0x4a, 0x86, 0x9f, 0x53, 0x33, 0xff,
    0x87, 0x4b, 0x2b, 0xe7, 0xfe, 0x32, 0x52, 0x9e, 0x77, 0xbb, 0xdb, 0x17, 0x0e, 0xc2, 0xa2, 0x6e,
    0x7a, 0xb6, 0xd6, 0x1a, 0x03, 0xcf, 0xaf, 0x63, 0x8a, 0x46, 0x26, 0xea, 0xf3, 0x3f, 0x5f, 0x93,
    0xa9, 0x65, 0x05, 0xc9, 0xd0, 0x1c, 0x7c, 0xb0, 0x59, 0x95, 0xf5, 0x39, 0x20, 0xec, 0x8c, 0x40,
    0x54, 0x98, 0xf8, 0x34, 0x2d, 0xe1, 0x81, 0x4d, 0xa4, 0x68, 0x08, 0xc4, 0xdd, 0x11, 0x71, 0xbd,
];

/// `row` where `x` has the bit, 0 where it does not.
pub open spec fn pick(x: u8, bit: u8, row: u8) -> u8 {
    if x & bit != 0 {
        row
    } else {
        0
    }
}

/// The map of Annex D from the conventional to the dual basis: one row of the
/// transformation matrix for each power of alpha, from alpha^7 down.
pub open spec fn to_dual(x: u8) -> u8 {
    pick(x, 0x80, 0x8d) ^ pick(x, 0x40, 0xef) ^ pick(x, 0x20, 0xec) ^ pick(x, 0x10, 0x86) ^ pick(x, 0x08, 0xfa) ^ pick(x, 0x04, 0x99) ^ pick(x, 0x02, 0xaf) ^ pick(x, 0x01, 0x7b)
}

/// The inverse map.
pub open spec fn to_conv(x: u8) -> u8 {
    pick(x, 0x80, 0xc5) ^ pick(x, 0x40, 0x42) ^ pick(x, 0x20, 0x2e) ^ pick(x, 0x10, 0xfd) ^ pick(x, 0x08, 0xf0) ^ pick(x, 0x04, 0x79) ^ pick(x, 0x02, 0xac) ^ pick(x, 0x01, 0xcc)
}

/// A sequence of conventional-basis bytes in the dual basis.
pub open spec fn seq_to_dual(s: Seq<u8>) -> Seq<u8> {
    Seq::new(s.len(), |i: int| to_dual(s[i]))
}

/// A sequence of dual-basis bytes in the conventional basis.
pub open spec fn seq_to_conv(s: Seq<u8>) -> Seq<u8> {
    Seq::new(s.len(), |i: int| to_conv(s[i]))
}

/// Each map undoes the other.
pub proof fn lemma_maps_are_inverse(x: u8)
    ensures
        to_conv(to_dual(x)) == x,
        to_dual(to_conv(x)) == x,
{
    assert(to_conv(to_dual(x)) == x && to_dual(to_conv(x)) == x) by (bit_vector);
}

// The two maps again, hidden from the solver while the tables are compared
// with them entry by entry.
#[verifier::opaque]
spec fn dual_entry(x: u8) -> u8 {
    to_dual(x)
}

#[verifier::opaque]
spec fn conv_entry(x: u8) -> u8 {
    to_conv(x)
}

proof fn lemma_dual_entries()
    ensures
        dual_entry(0) == 0x00, dual_entry(1) == 0x7b, dual_entry(2) == 0xaf, dual_entry(3) ==
        0xd4, dual_entry(4) == 0x99, dual_entry(5) == 0xe2, dual_entry(6) == 0x36, dual_entry(7)
        == 0x4d, dual_entry(8) == 0xfa, dual_entry(9) == 0x81, dual_entry(10) == 0x55,
        dual_entry(11) == 0x2e, dual_entry(12) == 0x63, dual_entry(13) == 0x18, dual_entry(14)
        == 0xcc, dual_entry(15) == 0xb7, dual_entry(16) == 0x86, dual_entry(17) == 0xfd,
        dual_entry(18) == 0x29, dual_entry(19) == 0x52, dual_entry(20) == 0x1f, dual_entry(21)
        == 0x64, dual_entry(22) == 0xb0, dual_entry(23) == 0xcb, dual_entry(24) == 0x7c,
        dual_entry(25) == 0x07, dual_entry(26) == 0xd3, dual_entry(27) == 0xa8, dual_entry(28)
        == 0xe5, dual_entry(29) == 0x9e, dual_entry(30) == 0x4a, dual_entry(31) == 0x31,
        dual_entry(32) == 0xec, dual_entry(33) == 0x97, dual_entry(34) == 0x43, dual_entry(35)
        == 0x38, dual_entry(36) == 0x75, dual_entry(37) == 0x0e, dual_entry(38) == 0xda,
        dual_entry(39) == 0xa1, dual_entry(40) == 0x16, dual_entry(41) == 0x6d, dual_entry(42)
        == 0xb9, dual_entry(43) == 0xc2, dual_entry(44) == 0x8f, dual_entry(45) == 0xf4,
        dual_entry(46) == 0x20, dual_entry(47) == 0x5b, dual_entry(48) == 0x6a, dual_entry(49)
        == 0x11, dual_entry(50) == 0xc5, dual_entry(51) == 0xbe, dual_entry(52) == 0xf3,
        dual_entry(53) == 0x88, dual_entry(54) == 0x5c, dual_entry(55) == 0x27, dual_entry(56)
        == 0x90, dual_entry(57) == 0xeb, dual_entry(58) == 0x3f, dual_entry(59) == 0x44,
        dual_entry(60) == 0x09, dual_entry(61) == 0x72, dual_entry(62) == 0xa6, dual_entry(63)
        == 0xdd, dual_entry(64) == 0xef, dual_entry(65) == 0x94, dual_entry(66) == 0x40,
        dual_entry(67) == 0x3b, dual_entry(68) == 0x76, dual_entry(69) == 0x0d, dual_entry(70)
        == 0xd9, dual_entry(71) == 0xa2, dual_entry(72) == 0x15, dual_entry(73) == 0x6e,
        dual_entry(74) == 0xba, dual_entry(75) == 0xc1, dual_entry(76) == 0x8c, dual_entry(77)
        == 0xf7, dual_entry(78) == 0x23, dual_entry(79) == 0x58, dual_entry(80) == 0x69,
        dual_entry(81) == 0x12, dual_entry(82) == 0xc6, dual_entry(83) == 0xbd, dual_entry(84)
        == 0xf0, dual_entry(85) == 0x8b, dual_entry(86) == 0x5f, dual_entry(87) == 0x24,
        dual_entry(88) == 0x93, dual_entry(89) == 0xe8, dual_entry(90) == 0x3c, dual_entry(91)
        == 0x47, dual_entry(92) == 0x0a, dual_entry(93) == 0x71, dual_entry(94) == 0xa5,
        dual_entry(95) == 0xde, dual_entry(96) == 0x03, dual_entry(97) == 0x78, dual_entry(98)
        == 0xac, dual_entry(99) == 0xd7, dual_entry(100) == 0x9a, dual_entry(101) == 0xe1,
        dual_entry(102) == 0x35, dual_entry(103) == 0x4e, dual_entry(104) == 0xf9,
        dual_entry(105) == 0x82, dual_entry(106) == 0x56, dual_entry(107) == 0x2d,
        dual_entry(108) == 0x60, dual_entry(109) == 0x1b, dual_entry(110) == 0xcf,
        dual_entry(111) == 0xb4, dual_entry(112) == 0x85, dual_entry(113) == 0xfe,
        dual_entry(114) == 0x2a, dual_entry(115) == 0x51, dual_entry(116) == 0x1c,
        dual_entry(117) == 0x67, dual_entry(118) == 0xb3, dual_entry(119) == 0xc8,
        dual_entry(120) == 0x7f, dual_entry(121) == 0x04, dual_entry(122) == 0xd0,
        dual_entry(123) == 0xab, dual_entry(124) == 0xe6, dual_entry(125) == 0x9d,
        dual_entry(126) == 0x49, dual_entry(127) == 0x32, dual_entry(128) == 0x8d,
        dual_entry(129) == 0xf6, dual_entry(130) == 0x22, dual_entry(131) == 0x59,
        dual_entry(132) == 0x14, dual_entry(133) == 0x6f, dual_entry(134) == 0xbb,
        dual_entry(135) == 0xc0, dual_entry(136) == 0x77, dual_entry(137) == 0x0c,
        dual_entry(138) == 0xd8, dual_entry(139) == 0xa3, dual_entry(140) == 0xee,
        dual_entry(141) == 0x95, dual_entry(142) == 0x41, dual_entry(143) == 0x3a,
        dual_entry(144) == 0x0b, dual_entry(145) == 0x70, dual_entry(146) == 0xa4,
        dual_entry(147) == 0xdf, dual_entry(148) == 0x92, dual_entry(149) == 0xe9,
        dual_entry(150) == 0x3d, dual_entry(151) == 0x46, dual_entry(152) == 0xf1,
        dual_entry(153) == 0x8a, dual_entry(154) == 0x5e, dual_entry(155) == 0x25,
        dual_entry(156) == 0x68, dual_entry(157) == 0x13, dual_entry(158) == 0xc7,
        dual_entry(159) == 0xbc, dual_entry(160) == 0x61, dual_entry(161) == 0x1a,
        dual_entry(162) == 0xce, dual_entry(163) == 0xb5, dual_entry(164) == 0xf8,
        dual_entry(165) == 0x83, dual_entry(166) == 0x57, dual_entry(167) == 0x2c,
        dual_entry(168) == 0x9b, dual_entry(169) == 0xe0, dual_entry(170) == 0x34,
        dual_entry(171) == 0x4f, dual_entry(172) == 0x02, dual_entry(173) == 0x79,
        dual_entry(174) == 0xad, dual_entry(175) == 0xd6, dual_entry(176) == 0xe7,
        dual_entry(177) == 0x9c, dual_entry(178) == 0x48, dual_entry(179) == 0x33,
        dual_entry(180) == 0x7e, dual_entry(181) == 0x05, dual_entry(182) == 0xd1,
        dual_entry(183) == 0xaa, dual_entry(184) == 0x1d, dual_entry(185) == 0x66,
        dual_entry(186) == 0xb2, dual_entry(187) == 0xc9, dual_entry(188) == 0x84,
        dual_entry(189) == 0xff, dual_entry(190) == 0x2b, dual_entry(191) == 0x50,
        dual_entry(192) == 0x62, dual_entry(193) == 0x19, dual_entry(194) == 0xcd,
        dual_entry(195) == 0xb6, dual_entry(196) == 0xfb, dual_entry(197) == 0x80,
        dual_entry(198) == 0x54, dual_entry(199) == 0x2f, dual_entry(200) == 0x98,
        dual_entry(201) == 0xe3, dual_entry(202) == 0x37, dual_entry(203) == 0x4c,
        dual_entry(204) == 0x01, dual_entry(205) == 0x7a, dual_entry(206) == 0xae,
        dual_entry(207) == 0xd5, dual_entry(208) == 0xe4, dual_entry(209) == 0x9f,
        dual_entry(210) == 0x4b, dual_entry(211) == 0x30, dual_entry(212) == 0x7d,
        dual_entry(213) == 0x06, dual_entry(214) == 0xd2, dual_entry(215) == 0xa9,
        dual_entry(216) == 0x1e, dual_entry(217) == 0x65, dual_entry(218) == 0xb1,
        dual_entry(219) == 0xca, dual_entry(220) == 0x87, dual_entry(221) == 0xfc,
        dual_entry(222) == 0x28, dual_entry(223) == 0x53, dual_entry(224) == 0x8e,
        dual_entry(225) == 0xf5, dual_entry(226) == 0x21, dual_entry(227) == 0x5a,
        dual_entry(228) == 0x17, dual_entry(229) == 0x6c, dual_entry(230) == 0xb8,
        dual_entry(231) == 0xc3, dual_entry(232) == 0x74, dual_entry(233) == 0x0f,
        dual_entry(234) == 0xdb, dual_entry(235) == 0xa0, dual_entry(236) == 0xed,
        dual_entry(237) == 0x96, dual_entry(238) == 0x42, dual_entry(239) == 0x39,
        dual_entry(240) == 0x08, dual_entry(241) == 0x73, dual_entry(242) == 0xa7,
        dual_entry(243) == 0xdc, dual_entry(244) == 0x91, dual_entry(245) == 0xea,
        dual_entry(246) == 0x3e, dual_entry(247) == 0x45, dual_entry(248) == 0xf2,
        dual_entry(249) == 0x89, dual_entry(250) == 0x5d, dual_entry(251) == 0x26,
        dual_entry(252) == 0x6b, dual_entry(253) == 0x10, dual_entry(254) == 0xc4,
        dual_entry(255) == 0xbf,
{
    assert(to_dual(0) == 0x00 && to_dual(1) == 0x7b && to_dual(2) == 0xaf && to_dual(3) == 0xd4 &&
        to_dual(4) == 0x99 && to_dual(5) == 0xe2 && to_dual(6) == 0x36 && to_dual(7) == 0x4d &&
        to_dual(8) == 0xfa && to_dual(9) == 0x81 && to_dual(10) == 0x55 && to_dual(11) == 0x2e
        && to_dual(12) == 0x63 && to_dual(13) == 0x18 && to_dual(14) == 0xcc && to_dual(15) ==
        0xb7 && to_dual(16) == 0x86 && to_dual(17) == 0xfd && to_dual(18) == 0x29 && to_dual(19)
        == 0x52 && to_dual(20) == 0x1f && to_dual(21) == 0x64 && to_dual(22) == 0xb0 &&
        to_dual(23) == 0xcb && to_dual(24) == 0x7c && to_dual(25) == 0x07 && to_dual(26) == 0xd3
        && to_dual(27) == 0xa8 && to_dual(28) == 0xe5 && to_dual(29) == 0x9e && to_dual(30) ==
        0x4a && to_dual(31) == 0x31 && to_dual(32) == 0xec && to_dual(33) == 0x97 && to_dual(34)
        == 0x43 && to_dual(35) == 0x38 && to_dual(36) == 0x75 && to_dual(37) == 0x0e &&
        to_dual(38) == 0xda && to_dual(39) == 0xa1 && to_dual(40) == 0x16 && to_dual(41) == 0x6d
        && to_dual(42) == 0xb9 && to_dual(43) == 0xc2 && to_dual(44) == 0x8f && to_dual(45) ==
        0xf4 && to_dual(46) == 0x20 && to_dual(47) == 0x5b && to_dual(48) == 0x6a && to_dual(49)
        == 0x11 && to_dual(50) == 0xc5 && to_dual(51) == 0xbe && to_dual(52) == 0xf3 &&
        to_dual(53) == 0x88 && to_dual(54) == 0x5c && to_dual(55) == 0x27 && to_dual(56) == 0x90
        && to_dual(57) == 0xeb && to_dual(58) == 0x3f && to_dual(59) == 0x44 && to_dual(60) ==
        0x09 && to_dual(61) == 0x72 && to_dual(62) == 0xa6 && to_dual(63) == 0xdd && to_dual(64)
        == 0xef && to_dual(65) == 0x94 && to_dual(66) == 0x40 && to_dual(67) == 0x3b &&
        to_dual(68) == 0x76 && to_dual(69) == 0x0d && to_dual(70) == 0xd9 && to_dual(71) == 0xa2
        && to_dual(72) == 0x15 && to_dual(73) == 0x6e && to_dual(74) == 0xba && to_dual(75) ==
        0xc1 && to_dual(76) == 0x8c && to_dual(77) == 0xf7 && to_dual(78) == 0x23 && to_dual(79)
        == 0x58 && to_dual(80) == 0x69 && to_dual(81) == 0x12 && to_dual(82) == 0xc6 &&
        to_dual(83) == 0xbd && to_dual(84) == 0xf0 && to_dual(85) == 0x8b && to_dual(86) == 0x5f
        && to_dual(87) == 0x24 && to_dual(88) == 0x93 && to_dual(89) == 0xe8 && to_dual(90) ==
        0x3c && to_dual(91) == 0x47 && to_dual(92) == 0x0a && to_dual(93) == 0x71 && to_dual(94)
        == 0xa5 && to_dual(95) == 0xde && to_dual(96) == 0x03 && to_dual(97) == 0x78 &&
        to_dual(98) == 0xac && to_dual(99) == 0xd7 && to_dual(100) == 0x9a && to_dual(101) ==
        0xe1 && to_dual(102) == 0x35 && to_dual(103) == 0x4e && to_dual(104) == 0xf9 &&
        to_dual(105) == 0x82 && to_dual(106) == 0x56 && to_dual(107) == 0x2d && to_dual(108) ==
        0x60 && to_dual(109) == 0x1b && to_dual(110) == 0xcf && to_dual(111) == 0xb4 &&
        to_dual(112) == 0x85 && to_dual(113) == 0xfe && to_dual(114) == 0x2a && to_dual(115) ==
        0x51 && to_dual(116) == 0x1c && to_dual(117) == 0x67 && to_dual(118) == 0xb3 &&
        to_dual(119) == 0xc8 && to_dual(120) == 0x7f && to_dual(121) == 0x04 && to_dual(122) ==
        0xd0 && to_dual(123) == 0xab && to_dual(124) == 0xe6 && to_dual(125) == 0x9d &&
        to_dual(126) == 0x49 && to_dual(127) == 0x32 && to_dual(128) == 0x8d && to_dual(129) ==
        0xf6 && to_dual(130) == 0x22 && to_dual(131) == 0x59 && to_dual(132) == 0x14 &&
        to_dual(133) == 0x6f && to_dual(134) == 0xbb && to_dual(135) == 0xc0 && to_dual(136) ==
        0x77 && to_dual(137) == 0x0c && to_dual(138) == 0xd8 && to_dual(139) == 0xa3 &&
        to_dual(140) == 0xee && to_dual(141) == 0x95 && to_dual(142) == 0x41 && to_dual(143) ==
        0x3a && to_dual(144) == 0x0b && to_dual(145) == 0x70 && to_dual(146) == 0xa4 &&
        to_dual(147) == 0xdf && to_dual(148) == 0x92 && to_dual(149) == 0xe9 && to_dual(150) ==
        0x3d && to_dual(151) == 0x46 && to_dual(152) == 0xf1 && to_dual(153) == 0x8a &&
        to_dual(154) == 0x5e && to_dual(155) == 0x25 && to_dual(156) == 0x68 && to_dual(157) ==
        0x13 && to_dual(158) == 0xc7 && to_dual(159) == 0xbc && to_dual(160) == 0x61 &&
        to_dual(161) == 0x1a && to_dual(162) == 0xce && to_dual(163) == 0xb5 && to_dual(164) ==
        0xf8 && to_dual(165) == 0x83 && to_dual(166) == 0x57 && to_dual(167) == 0x2c &&
        to_dual(168) == 0x9b && to_dual(169) == 0xe0 && to_dual(170) == 0x34 && to_dual(171) ==
        0x4f && to_dual(172) == 0x02 && to_dual(173) == 0x79 && to_dual(174) == 0xad &&
        to_dual(175) == 0xd6 && to_dual(176) == 0xe7 && to_dual(177) == 0x9c && to_dual(178) ==
        0x48 && to_dual(179) == 0x33 && to_dual(180) == 0x7e && to_dual(181) == 0x05 &&
        to_dual(182) == 0xd1 && to_dual(183) == 0xaa && to_dual(184) == 0x1d && to_dual(185) ==
        0x66 && to_dual(186) == 0xb2 && to_dual(187) == 0xc9 && to_dual(188) == 0x84 &&
        to_dual(189) == 0xff && to_dual(190) == 0x2b && to_dual(191) == 0x50 && to_dual(192) ==
        0x62 && to_dual(193) == 0x19 && to_dual(194) == 0xcd && to_dual(195) == 0xb6 &&
        to_dual(196) == 0xfb && to_dual(197) == 0x80 && to_dual(198) == 0x54 && to_dual(199) ==
        0x2f && to_dual(200) == 0x98 && to_dual(201) == 0xe3 && to_dual(202) == 0x37 &&
        to_dual(203) == 0x4c && to_dual(204) == 0x01 && to_dual(205) == 0x7a && to_dual(206) ==
        0xae && to_dual(207) == 0xd5 && to_dual(208) == 0xe4 && to_dual(209) == 0x9f &&
        to_dual(210) == 0x4b && to_dual(211) == 0x30 && to_dual(212) == 0x7d && to_dual(213) ==
        0x06 && to_dual(214) == 0xd2 && to_dual(215) == 0xa9 && to_dual(216) == 0x1e &&
        to_dual(217) == 0x65 && to_dual(218) == 0xb1 && to_dual(219) == 0xca && to_dual(220) ==
        0x87 && to_dual(221) == 0xfc && to_dual(222) == 0x28 && to_dual(223) == 0x53 &&
        to_dual(224) == 0x8e && to_dual(225) == 0xf5 && to_dual(226) == 0x21 && to_dual(227) ==
        0x5a && to_dual(228) == 0x17 && to_dual(229) == 0x6c && to_dual(230) == 0xb8 &&
        to_dual(231) == 0xc3 && to_dual(232) == 0x74 && to_dual(233) == 0x0f && to_dual(234) ==
        0xdb && to_dual(235) == 0xa0 && to_dual(236) == 0xed && to_dual(237) == 0x96 &&
        to_dual(238) == 0x42 && to_dual(239) == 0x39 && to_dual(240) == 0x08 && to_dual(241) ==
        0x73 && to_dual(242) == 0xa7 && to_dual(243) == 0xdc && to_dual(244) == 0x91 &&
        to_dual(245) == 0xea && to_dual(246) == 0x3e && to_dual(247) == 0x45 && to_dual(248) ==
        0xf2 && to_dual(249) == 0x89 && to_dual(250) == 0x5d && to_dual(251) == 0x26 &&
        to_dual(252) == 0x6b && to_dual(253) == 0x10 && to_dual(254) == 0xc4 && to_dual(255) ==
        0xbf) by (bit_vector);
    reveal(dual_entry);
}

proof fn lemma_conv_entries()
    ensures
        conv_entry(0) == 0x00, conv_entry(1) == 0xcc, conv_entry(2) == 0xac, conv_entry(3) ==
        0x60, conv_entry(4) == 0x79, conv_entry(5) == 0xb5, conv_entry(6) == 0xd5, conv_entry(7)
        == 0x19, conv_entry(8) == 0xf0, conv_entry(9) == 0x3c, conv_entry(10) == 0x5c,
        conv_entry(11) == 0x90, conv_entry(12) == 0x89, conv_entry(13) == 0x45, conv_entry(14)
        == 0x25, conv_entry(15) == 0xe9, conv_entry(16) == 0xfd, conv_entry(17) == 0x31,
        conv_entry(18) == 0x51, conv_entry(19) == 0x9d, conv_entry(20) == 0x84, conv_entry(21)
        == 0x48, conv_entry(22) == 0x28, conv_entry(23) == 0xe4, conv_entry(24) == 0x0d,
        conv_entry(25) == 0xc1, conv_entry(26) == 0xa1, conv_entry(27) == 0x6d, conv_entry(28)
        == 0x74, conv_entry(29) == 0xb8, conv_entry(30) == 0xd8, conv_entry(31) == 0x14,
        conv_entry(32) == 0x2e, conv_entry(33) == 0xe2, conv_entry(34) == 0x82, conv_entry(35)
        == 0x4e, conv_entry(36) == 0x57, conv_entry(37) == 0x9b, conv_entry(38) == 0xfb,
        conv_entry(39) == 0x37, conv_entry(40) == 0xde, conv_entry(41) == 0x12, conv_entry(42)
        == 0x72, conv_entry(43) == 0xbe, conv_entry(44) == 0xa7, conv_entry(45) == 0x6b,
        conv_entry(46) == 0x0b, conv_entry(47) == 0xc7, conv_entry(48) == 0xd3, conv_entry(49)
        == 0x1f, conv_entry(50) == 0x7f, conv_entry(51) == 0xb3, conv_entry(52) == 0xaa,
        conv_entry(53) == 0x66, conv_entry(54) == 0x06, conv_entry(55) == 0xca, conv_entry(56)
        == 0x23, conv_entry(57) == 0xef, conv_entry(58) == 0x8f, conv_entry(59) == 0x43,
        conv_entry(60) == 0x5a, conv_entry(61) == 0x96, conv_entry(62) == 0xf6, conv_entry(63)
        == 0x3a, conv_entry(64) == 0x42, conv_entry(65) == 0x8e, conv_entry(66) == 0xee,
        conv_entry(67) == 0x22, conv_entry(68) == 0x3b, conv_entry(69) == 0xf7, conv_entry(70)
        == 0x97, conv_entry(71) == 0x5b, conv_entry(72) == 0xb2, conv_entry(73) == 0x7e,
        conv_entry(74) == 0x1e, conv_entry(75) == 0xd2, conv_entry(76) == 0xcb, conv_entry(77)
        == 0x07, conv_entry(78) == 0x67, conv_entry(79) == 0xab, conv_entry(80) == 0xbf,
        conv_entry(81) == 0x73, conv_entry(82) == 0x13, conv_entry(83) == 0xdf, conv_entry(84)
        == 0xc6, conv_entry(85) == 0x0a, conv_entry(86) == 0x6a, conv_entry(87) == 0xa6,
        conv_entry(88) == 0x4f, conv_entry(89) == 0x83, conv_entry(90) == 0xe3, conv_entry(91)
        == 0x2f, conv_entry(92) == 0x36, conv_entry(93) == 0xfa, conv_entry(94) == 0x9a,
        conv_entry(95) == 0x56, conv_entry(96) == 0x6c, conv_entry(97) == 0xa0, conv_entry(98)
        == 0xc0, conv_entry(99) == 0x0c, conv_entry(100) == 0x15, conv_entry(101) == 0xd9,
        conv_entry(102) == 0xb9, conv_entry(103) == 0x75, conv_entry(104) == 0x9c,
        conv_entry(105) == 0x50, conv_entry(106) == 0x30, conv_entry(107) == 0xfc,
        conv_entry(108) == 0xe5, conv_entry(109) == 0x29, conv_entry(110) == 0x49,
        conv_entry(111) == 0x85, conv_entry(112) == 0x91, conv_entry(113) == 0x5d,
        conv_entry(114) == 0x3d, conv_entry(115) == 0xf1, conv_entry(116) == 0xe8,
        conv_entry(117) == 0x24, conv_entry(118) == 0x44, conv_entry(119) == 0x88,
        conv_entry(120) == 0x61, conv_entry(121) == 0xad, conv_entry(122) == 0xcd,
        conv_entry(123) == 0x01, conv_entry(124) == 0x18, conv_entry(125) == 0xd4,
        conv_entry(126) == 0xb4, conv_entry(127) == 0x78, conv_entry(128) == 0xc5,
        conv_entry(129) == 0x09, conv_entry(130) == 0x69, conv_entry(131) == 0xa5,
        conv_entry(132) == 0xbc, conv_entry(133) == 0x70, conv_entry(134) == 0x10,
        conv_entry(135) == 0xdc, conv_entry(136) == 0x35, conv_entry(137) == 0xf9,
        conv_entry(138) == 0x99, conv_entry(139) == 0x55, conv_entry(140) == 0x4c,
        conv_entry(141) == 0x80, conv_entry(142) == 0xe0, conv_entry(143) == 0x2c,
        conv_entry(144) == 0x38, conv_entry(145) == 0xf4, conv_entry(146) == 0x94,
        conv_entry(147) == 0x58, conv_entry(148) == 0x41, conv_entry(149) == 0x8d,
        conv_entry(150) == 0xed, conv_entry(151) == 0x21, conv_entry(152) == 0xc8,
        conv_entry(153) == 0x04, conv_entry(154) == 0x64, conv_entry(155) == 0xa8,
        conv_entry(156) == 0xb1, conv_entry(157) == 0x7d, conv_entry(158) == 0x1d,
        conv_entry(159) == 0xd1, conv_entry(160) == 0xeb, conv_entry(161) == 0x27,
        conv_entry(162) == 0x47, conv_entry(163) == 0x8b, conv_entry(164) == 0x92,
        conv_entry(165) == 0x5e, conv_entry(166) == 0x3e, conv_entry(167) == 0xf2,
        conv_entry(168) == 0x1b, conv_entry(169) == 0xd7, conv_entry(170) == 0xb7,
        conv_entry(171) == 0x7b, conv_entry(172) == 0x62, conv_entry(173) == 0xae,
        conv_entry(174) == 0xce, conv_entry(175) == 0x02, conv_entry(176) == 0x16,
        conv_entry(177) == 0xda, conv_entry(178) == 0xba, conv_entry(179) == 0x76,
        conv_entry(180) == 0x6f, conv_entry(181) == 0xa3, conv_entry(182) == 0xc3,
        conv_entry(183) == 0x0f, conv_entry(184) == 0xe6, conv_entry(185) == 0x2a,
        conv_entry(186) == 0x4a, conv_entry(187) == 0x86, conv_entry(188) == 0x9f,
        conv_entry(189) == 0x53, conv_entry(190) == 0x33, conv_entry(191) == 0xff,
        conv_entry(192) == 0x87, conv_entry(193) == 0x4b, conv_entry(194) == 0x2b,
        conv_entry(195) == 0xe7, conv_entry(196) == 0xfe, conv_entry(197) == 0x32,
        conv_entry(198) == 0x52, conv_entry(199) == 0x9e, conv_entry(200) == 0x77,
        conv_entry(201) == 0xbb, conv_entry(202) == 0xdb, conv_entry(203) == 0x17,
        conv_entry(204) == 0x0e, conv_entry(205) == 0xc2, conv_entry(206) == 0xa2,
        conv_entry(207) == 0x6e, conv_entry(208) == 0x7a, conv_entry(209) == 0xb6,
        conv_entry(210) == 0xd6, conv_entry(211) == 0x1a, conv_entry(212) == 0x03,
        conv_entry(213) == 0xcf, conv_entry(214) == 0xaf, conv_entry(215) == 0x63,
        conv_entry(216) == 0x8a, conv_entry(217) == 0x46, conv_entry(218) == 0x26,
        conv_entry(219) == 0xea, conv_entry(220) == 0xf3, conv_entry(221) == 0x3f,
        conv_entry(222) == 0x5f, conv_entry(223) == 0x93, conv_entry(224) == 0xa9,
        conv_entry(225) == 0x65, conv_entry(226) == 0x05, conv_entry(227) == 0xc9,
        conv_entry(228) == 0xd0, conv_entry(229) == 0x1c, conv_entry(230) == 0x7c,
        conv_entry(231) == 0xb0, conv_entry(232) == 0x59, conv_entry(233) == 0x95,
        conv_entry(234) == 0xf5, conv_entry(235) == 0x39, conv_entry(236) == 0x20,
        conv_entry(237) == 0xec, conv_entry(238) == 0x8c, conv_entry(239) == 0x40,
        conv_entry(240) == 0x54, conv_entry(241) == 0x98, conv_entry(242) == 0xf8,
        conv_entry(243) == 0x34, conv_entry(244) == 0x2d, conv_entry(245) == 0xe1,
        conv_entry(246) == 0x81, conv_entry(247) == 0x4d, conv_entry(248) == 0xa4,
        conv_entry(249) == 0x68, conv_entry(250) == 0x08, conv_entry(251) == 0xc4,
        conv_entry(252) == 0xdd, conv_entry(253) == 0x11, conv_entry(254) == 0x71,
        conv_entry(255) == 0xbd,
{
    assert(to_conv(0) == 0x00 && to_conv(1) == 0xcc && to_conv(2) == 0xac && to_conv(3) == 0x60 &&
        to_conv(4) == 0x79 && to_conv(5) == 0xb5 && to_conv(6) == 0xd5 && to_conv(7) == 0x19 &&
        to_conv(8) == 0xf0 && to_conv(9) == 0x3c && to_conv(10) == 0x5c && to_conv(11) == 0x90
        && to_conv(12) == 0x89 && to_conv(13) == 0x45 && to_conv(14) == 0x25 && to_conv(15) ==
        0xe9 && to_conv(16) == 0xfd && to_conv(17) == 0x31 && to_conv(18) == 0x51 && to_conv(19)
        == 0x9d && to_conv(20) == 0x84 && to_conv(21) == 0x48 && to_conv(22) == 0x28 &&
        to_conv(23) == 0xe4 && to_conv(24) == 0x0d && to_conv(25) == 0xc1 && to_conv(26) == 0xa1
        && to_conv(27) == 0x6d && to_conv(28) == 0x74 && to_conv(29) == 0xb8 && to_conv(30) ==
        0xd8 && to_conv(31) == 0x14 && to_conv(32) == 0x2e && to_conv(33) == 0xe2 && to_conv(34)
        == 0x82 && to_conv(35) == 0x4e && to_conv(36) == 0x57 && to_conv(37) == 0x9b &&
        to_conv(38) == 0xfb && to_conv(39) == 0x37 && to_conv(40) == 0xde && to_conv(41) == 0x12
        && to_conv(42) == 0x72 && to_conv(43) == 0xbe && to_conv(44) == 0xa7 && to_conv(45) ==
        0x6b && to_conv(46) == 0x0b && to_conv(47) == 0xc7 && to_conv(48) == 0xd3 && to_conv(49)
        == 0x1f && to_conv(50) == 0x7f && to_conv(51) == 0xb3 && to_conv(52) == 0xaa &&
        to_conv(53) == 0x66 && to_conv(54) == 0x06 && to_conv(55) == 0xca && to_conv(56) == 0x23
        && to_conv(57) == 0xef && to_conv(58) == 0x8f && to_conv(59) == 0x43 && to_conv(60) ==
        0x5a && to_conv(61) == 0x96 && to_conv(62) == 0xf6 && to_conv(63) == 0x3a && to_conv(64)
        == 0x42 && to_conv(65) == 0x8e && to_conv(66) == 0xee && to_conv(67) == 0x22 &&
        to_conv(68) == 0x3b && to_conv(69) == 0xf7 && to_conv(70) == 0x97 && to_conv(71) == 0x5b
        && to_conv(72) == 0xb2 && to_conv(73) == 0x7e && to_conv(74) == 0x1e && to_conv(75) ==
        0xd2 && to_conv(76) == 0xcb && to_conv(77) == 0x07 && to_conv(78) == 0x67 && to_conv(79)
        == 0xab && to_conv(80) == 0xbf && to_conv(81) == 0x73 && to_conv(82) == 0x13 &&
        to_conv(83) == 0xdf && to_conv(84) == 0xc6 && to_conv(85) == 0x0a && to_conv(86) == 0x6a
        && to_conv(87) == 0xa6 && to_conv(88) == 0x4f && to_conv(89) == 0x83 && to_conv(90) ==
        0xe3 && to_conv(91) == 0x2f && to_conv(92) == 0x36 && to_conv(93) == 0xfa && to_conv(94)
        == 0x9a && to_conv(95) == 0x56 && to_conv(96) == 0x6c && to_conv(97) == 0xa0 &&
        to_conv(98) == 0xc0 && to_conv(99) == 0x0c && to_conv(100) == 0x15 && to_conv(101) ==
        0xd9 && to_conv(102) == 0xb9 && to_conv(103) == 0x75 && to_conv(104) == 0x9c &&
        to_conv(105) == 0x50 && to_conv(106) == 0x30 && to_conv(107) == 0xfc && to_conv(108) ==
        0xe5 && to_conv(109) == 0x29 && to_conv(110) == 0x49 && to_conv(111) == 0x85 &&
        to_conv(112) == 0x91 && to_conv(113) == 0x5d && to_conv(114) == 0x3d && to_conv(115) ==
        0xf1 && to_conv(116) == 0xe8 && to_conv(117) == 0x24 && to_conv(118) == 0x44 &&
        to_conv(119) == 0x88 && to_conv(120) == 0x61 && to_conv(121) == 0xad && to_conv(122) ==
        0xcd && to_conv(123) == 0x01 && to_conv(124) == 0x18 && to_conv(125) == 0xd4 &&
        to_conv(126) == 0xb4 && to_conv(127) == 0x78 && to_conv(128) == 0xc5 && to_conv(129) ==
        0x09 && to_conv(130) == 0x69 && to_conv(131) == 0xa5 && to_conv(132) == 0xbc &&
        to_conv(133) == 0x70 && to_conv(134) == 0x10 && to_conv(135) == 0xdc && to_conv(136) ==
        0x35 && to_conv(137) == 0xf9 && to_conv(138) == 0x99 && to_conv(139) == 0x55 &&
        to_conv(140) == 0x4c && to_conv(141) == 0x80 && to_conv(142) == 0xe0 && to_conv(143) ==
        0x2c && to_conv(144) == 0x38 && to_conv(145) == 0xf4 && to_conv(146) == 0x94 &&
        to_conv(147) == 0x58 && to_conv(148) == 0x41 && to_conv(149) == 0x8d && to_conv(150) ==
        0xed && to_conv(151) == 0x21 && to_conv(152) == 0xc8 && to_conv(153) == 0x04 &&
        to_conv(154) == 0x64 && to_conv(155) == 0xa8 && to_conv(156) == 0xb1 && to_conv(157) ==
        0x7d && to_conv(158) == 0x1d && to_conv(159) == 0xd1 && to_conv(160) == 0xeb &&
        to_conv(161) == 0x27 && to_conv(162) == 0x47 && to_conv(163) == 0x8b && to_conv(164) ==
        0x92 && to_conv(165) == 0x5e && to_conv(166) == 0x3e && to_conv(167) == 0xf2 &&
        to_conv(168) == 0x1b && to_conv(169) == 0xd7 && to_conv(170) == 0xb7 && to_conv(171) ==
        0x7b && to_conv(172) == 0x62 && to_conv(173) == 0xae && to_conv(174) == 0xce &&
        to_conv(175) == 0x02 && to_conv(176) == 0x16 && to_conv(177) == 0xda && to_conv(178) ==
        0xba && to_conv(179) == 0x76 && to_conv(180) == 0x6f && to_conv(181) == 0xa3 &&
        to_conv(182) == 0xc3 && to_conv(183) == 0x0f && to_conv(184) == 0xe6 && to_conv(185) ==
        0x2a && to_conv(186) == 0x4a && to_conv(187) == 0x86 && to_conv(188) == 0x9f &&
        to_conv(189) == 0x53 && to_conv(190) == 0x33 && to_conv(191) == 0xff && to_conv(192) ==
        0x87 && to_conv(193) == 0x4b && to_conv(194) == 0x2b && to_conv(195) == 0xe7 &&
        to_conv(196) == 0xfe && to_conv(197) == 0x32 && to_conv(198) == 0x52 && to_conv(199) ==
        0x9e && to_conv(200) == 0x77 && to_conv(201) == 0xbb && to_conv(202) == 0xdb &&
        to_conv(203) == 0x17 && to_conv(204) == 0x0e && to_conv(205) == 0xc2 && to_conv(206) ==
        0xa2 && to_conv(207) == 0x6e && to_conv(208) == 0x7a && to_conv(209) == 0xb6 &&
        to_conv(210) == 0xd6 && to_conv(211) == 0x1a && to_conv(212) == 0x03 && to_conv(213) ==
        0xcf && to_conv(214) == 0xaf && to_conv(215) == 0x63 && to_conv(216) == 0x8a &&
        to_conv(217) == 0x46 && to_conv(218) == 0x26 && to_conv(219) == 0xea && to_conv(220) ==
        0xf3 && to_conv(221) == 0x3f && to_conv(222) == 0x5f && to_conv(223) == 0x93 &&
        to_conv(224) == 0xa9 && to_conv(225) == 0x65 && to_conv(226) == 0x05 && to_conv(227) ==
        0xc9 && to_conv(228) == 0xd0 && to_conv(229) == 0x1c && to_conv(230) == 0x7c &&
        to_conv(231) == 0xb0 && to_conv(232) == 0x59 && to_conv(233) == 0x95 && to_conv(234) ==
        0xf5 && to_conv(235) == 0x39 && to_conv(236) == 0x20 && to_conv(237) == 0xec &&
        to_conv(238) == 0x8c && to_conv(239) == 0x40 && to_conv(240) == 0x54 && to_conv(241) ==
        0x98 && to_conv(242) == 0xf8 && to_conv(243) == 0x34 && to_conv(244) == 0x2d &&
        to_conv(245) == 0xe1 && to_conv(246) == 0x81 && to_conv(247) == 0x4d && to_conv(248) ==
        0xa4 && to_conv(249) == 0x68 && to_conv(250) == 0x08 && to_conv(251) == 0xc4 &&
        to_conv(252) == 0xdd && to_conv(253) == 0x11 && to_conv(254) == 0x71 && to_conv(255) ==
        0xbd) by (bit_vector);
    reveal(conv_entry);
}

proof fn lemma_dual_table(x: u8)
    ensures
        CONV_TO_DUAL@[x as int] == dual_entry(x),
{
    lemma_dual_entries();
}

proof fn lemma_conv_table(x: u8)
    ensures
        DUAL_TO_CONV@[x as int] == conv_entry(x),
{
    lemma_conv_entries();
}

/// The tables hold the maps.
pub proof fn lemma_tables(x: u8)
    ensures
        CONV_TO_DUAL@[x as int] == to_dual(x),
        DUAL_TO_CONV@[x as int] == to_conv(x),
{
    lemma_dual_table(x);
    lemma_conv_table(x);
    reveal(dual_entry);
    reveal(conv_entry);
}

/// Converts one conventional-basis byte to its CCSDS dual-basis byte. This is
/// the direction applied to parity on its way onto the wire.
pub fn conv_to_dual(byte: u8) -> (res: u8)
    ensures
        res == to_dual(byte),
{
    proof {
        lemma_tables(byte);
    }
    CONV_TO_DUAL[byte as usize]
}

/// Converts one CCSDS dual-basis byte back to its conventional-basis byte. This
/// is the direction applied to symbols received from the wire.
pub fn dual_to_conv(byte: u8) -> (res: u8)
    ensures
        res == to_conv(byte),
{
    proof {
        lemma_tables(byte);
    }
    DUAL_TO_CONV[byte as usize]
}

/// Converts a whole slice of dual-basis bytes.
pub(crate) fn dual_to_conv_all(bytes: &[u8]) -> (res: Vec<u8>)
    ensures
        res@ == seq_to_conv(bytes@),
{
    let mut res: Vec<u8> = Vec::with_capacity(bytes.len());
    let mut i: usize = 0;
    while i < bytes.len()
        invariant
            i <= bytes@.len(),
            res@ == seq_to_conv(bytes@.take(i as int)),
        decreases bytes@.len() - i,
    {
        res.push(dual_to_conv(bytes[i]));
        i = i + 1;
        assert(res@ =~= seq_to_conv(bytes@.take(i as int)));
    }
    assert(bytes@.take(i as int) =~= bytes@);
    res
}

} // verus!
