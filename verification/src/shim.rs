//! The state behind a C interface: Viterbi decoders that are fed blocks and asked
//! for bytes, and Reed-Solomon codecs that work in place. What crosses the
//! language boundary is left to the caller; here the buffers are slices.

use crate::convolutional::bit::{bit_at, bits_of};
use crate::convolutional::channel::{lemma_costs_bounded, soft_cost};
use crate::convolutional::decoder::{decoded_bytes, run_for, yield_len};
use crate::convolutional::error::{payload_len, valid_encoded_len};
use crate::convolutional::laws::lemma_bytes_from_bits;
use crate::convolutional::recovery::{counts, far, lemma_total_equal, off_by, symbols_off};
use crate::convolutional::traceback::{is_read_from, lemma_read_from};
use crate::convolutional::trellis::Trellis;
use crate::convolutional::viterbi::lemma_clean_bit;
use crate::convolutional::{DecodeError as ConvDecodeError, Decoder};
use crate::reed_solomon::ccsds::{
    conv_to_dual, dual_to_conv_all, lemma_maps_are_inverse, seq_to_conv, seq_to_dual, to_dual,
};
use crate::reed_solomon::code::Code;
use crate::reed_solomon::decoder::decode_result;
use crate::reed_solomon::decoding::{
    error_positions, lemma_clean_block, lemma_ccsds_valid, lemma_dual_round_trip, lemma_round_trip, valid_erasures,
};
use crate::reed_solomon::primitive::is_primitive_polynomial;
use crate::reed_solomon::restore::{is_flagged, lemma_decode_count, lemma_wrong_places, wrong_places};
use crate::reed_solomon::{DecodeError, Encoder, RsDecoder};
use vstd::arithmetic::div_mod::{lemma_div_multiples_vanish, lemma_mod_multiples_basic};
use vstd::prelude::*;

verus! {

/// A Viterbi decoder with room for what it has decoded and not yet handed out.
#[derive(Debug, Clone)]
pub struct Shim<const R: u32, const O: u32> {
    decoder: Decoder,
    decode_buffer: Vec<u8>,
    read_index: usize,
    write_index: usize,
}

/// How far a block advances the write position, in bytes: one bit per group of
/// symbols but for the last `order - 1`, as far as the buffer goes.
pub open spec fn advance(num_symbols: int, rate: int, order: int, room: int) -> int {
    let bits = num_symbols / rate - (order - 1);
    (if bits <= 8 * room {
        bits
    } else {
        8 * room
    }) / 8
}

/// The decoder takes a block of this many symbols: it is long enough to decode,
/// and its payload fits the room.
pub open spec fn accepts(code: Trellis, num_symbols: int, room: int) -> bool {
    &&& valid_encoded_len(num_symbols, code.rate as int, code.order as int)
    &&& payload_len(num_symbols, code.rate as int, code.order as int) <= room
}

/// What decoding a block of soft symbols into a buffer does.
pub open spec fn block_decoded(
    code: Trellis,
    encoded: Seq<u8>,
    before: Seq<u8>,
    after: Seq<u8>,
    res: Result<usize, ConvDecodeError>,
) -> bool {
    decoded_bytes(
        code,
        soft_cost(encoded, None),
        encoded.len() as usize,
        true,
        yield_len(
            encoded.len() as int,
            code.rate as int,
            code.order as int,
            before.len() as int,
        ),
        before,
        after,
        res,
    )
}

impl<const R: u32, const O: u32> Shim<R, O> {
    pub closed spec fn code(self) -> Trellis {
        self.decoder.code()
    }

    /// What the blocks so far have been decoded to, and the rest of the buffer.
    pub closed spec fn buffer(self) -> Seq<u8> {
        self.decode_buffer@
    }

    /// How many bytes have been handed out.
    pub closed spec fn read(self) -> int {
        self.read_index as int
    }

    /// How many bytes the blocks so far account for.
    pub closed spec fn written(self) -> int {
        self.write_index as int
    }

    pub closed spec fn wf(self) -> bool {
        &&& 2 <= R <= 8
        &&& 4 <= O <= 16
        &&& self.decoder.wf()
        &&& self.decoder.code().rate == R
        &&& self.decoder.code().order == O
        &&& self.read_index <= self.write_index <= self.decode_buffer@.len()
        &&& 8 * self.decode_buffer@.len() <= usize::MAX
    }

    /// A decoder with room for `num_decoded_bits` bits and a byte to spare.
    pub fn new(num_decoded_bits: usize, polys: &[u16]) -> (shim: Shim<R, O>)
        requires
            2 <= R <= 8,
            4 <= O <= 16,
            polys@.len() == R,
            num_decoded_bits + 15 <= usize::MAX,
        ensures
            shim.wf(),
            shim.code() == (Trellis { rate: R as nat, order: O as nat, polys: polys@ }),
            shim.buffer() == Seq::new(
                ((num_decoded_bits + 7) / 8 + 1) as nat,
                |i: int| 0u8,
            ),
            shim.read() == 0,
            shim.written() == 0,
    {
        let num_decoded: usize = if num_decoded_bits % 8 == 0 {
            num_decoded_bits / 8
        } else {
            num_decoded_bits / 8 + 1
        };
        let decode_buffer: Vec<u8> = vec![0u8; num_decoded + 1];
        assert(decode_buffer@ =~= Seq::new(
            ((num_decoded_bits + 7) / 8 + 1) as nat,
            |i: int| 0u8,
        ));
        Shim { decoder: Decoder::new(R, O, polys), decode_buffer, read_index: 0, write_index: 0 }
    }

    /// Starts over; what was decoded before is overwritten.
    pub fn init(&mut self)
        requires
            old(self).wf(),
        ensures
            final(self).wf(),
            final(self).code() == old(self).code(),
            final(self).buffer() == old(self).buffer(),
            final(self).read() == 0,
            final(self).written() == 0,
    {
        self.read_index = 0;
        self.write_index = 0;
    }

    /// Decodes a block of soft symbols behind what is already decoded, with every
    /// whole byte that it yields. A block that the decoder refuses leaves the
    /// buffer as it is.
    pub fn decode(&mut self, encoded: &[u8])
        requires
            old(self).wf(),
            encoded@.len() as int / R as int >= O - 1,
        ensures
            final(self).wf(),
            final(self).code() == old(self).code(),
            final(self).read() == old(self).read(),
            final(self).written() == old(self).written() + advance(
                encoded@.len() as int,
                R as int,
                O as int,
                old(self).buffer().len() - old(self).written(),
            ),
            final(self).buffer().len() == old(self).buffer().len(),
            final(self).buffer().take(old(self).written()) == old(self).buffer().take(
                old(self).written(),
            ),
            accepts(
                old(self).code(),
                encoded@.len() as int,
                old(self).buffer().len() - old(self).written(),
            ) ==> forall|i: int|
                0 <= i < 8 * advance(
                    encoded@.len() as int,
                    R as int,
                    O as int,
                    old(self).buffer().len() - old(self).written(),
                ) ==> #[trigger] bit_at(final(self).buffer().skip(old(self).written()), i)
                    == run_for(
                    old(self).code(),
                    soft_cost(encoded@, None),
                    encoded@.len() as int,
                ).decoded_bit(i),
            exists|res: Result<usize, ConvDecodeError>| #[trigger]
                block_decoded(
                    old(self).code(),
                    encoded@,
                    old(self).buffer().skip(old(self).written()),
                    final(self).buffer().skip(old(self).written()),
                    res,
                ),
    {
        let room: usize = self.decode_buffer.len() - self.write_index;
        let mut decoded_len: usize = encoded.len() / R as usize - (O as usize - 1);
        if decoded_len > 8 * room {
            decoded_len = 8 * room;
        }
        let at: usize = self.write_index;
        let res: Result<usize, ConvDecodeError> = decode_behind(
            &mut self.decoder,
            &mut self.decode_buffer,
            at,
            encoded,
        );
        self.write_index = self.write_index + decoded_len / 8;
        assert(block_decoded(
            old(self).code(),
            encoded@,
            old(self).buffer().skip(old(self).written()),
            self.buffer().skip(old(self).written()),
            res,
        ));
    }

    /// Hands out the next decoded bytes, as many as there are and `decoded`
    /// takes, and returns how many.
    pub fn receive(&mut self, decoded: &mut [u8]) -> (count: usize)
        requires
            old(self).wf(),
            8 * old(decoded)@.len() <= usize::MAX,
        ensures
            final(self).wf(),
            final(self).code() == old(self).code(),
            final(self).buffer() == old(self).buffer(),
            final(self).written() == old(self).written(),
            final(self).read() == old(self).read() + count,
            ({
                let waiting = old(self).written() - old(self).read();
                count == if old(decoded)@.len() <= waiting {
                    old(decoded)@.len() as int
                } else {
                    waiting
                }
            }),
            final(decoded)@ == old(self).buffer().subrange(
                old(self).read(),
                old(self).read() + count,
            ) + old(decoded)@.skip(count as int),
    {
        let ghost before = decoded@;
        let waiting: usize = self.write_index - self.read_index;
        let count: usize = if decoded.len() <= waiting {
            decoded.len()
        } else {
            waiting
        };
        let mut i: usize = 0;
        while i < count
            invariant
                i <= count,
                count <= decoded@.len(),
                decoded@.len() == before.len(),
                *self == *old(self),
                self.wf(),
                self.read_index + count <= self.write_index,
                forall|k: int|
                    0 <= k < i ==> #[trigger] decoded@[k] == self.decode_buffer@[self.read_index
                        + k],
                forall|k: int| i <= k < before.len() ==> #[trigger] decoded@[k] == before[k],
            decreases count - i,
        {
            decoded[i] = self.decode_buffer[self.read_index + i];
            i = i + 1;
        }
        assert(decoded@ =~= self.decode_buffer@.subrange(
            self.read_index as int,
            self.read_index + count,
        ) + before.skip(count as int));
        self.read_index = self.read_index + count;
        count
    }
}

/// Decodes into the part of a buffer from `at` on.
fn decode_behind(decoder: &mut Decoder, buffer: &mut [u8], at: usize, encoded: &[u8]) -> (res: Result<
    usize,
    ConvDecodeError,
>)
    requires
        old(decoder).wf(),
        at <= old(buffer)@.len(),
    ensures
        final(decoder).wf(),
        final(decoder).code() == old(decoder).code(),
        final(buffer)@.len() == old(buffer)@.len(),
        final(buffer)@.take(at as int) == old(buffer)@.take(at as int),
        block_decoded(
            old(decoder).code(),
            encoded@,
            old(buffer)@.skip(at as int),
            final(buffer)@.skip(at as int),
            res,
        ),
{
    let mut rest: Vec<u8> = Vec::new();
    let ghost before = buffer@;
    let mut i: usize = at;
    while i < buffer.len()
        invariant
            at <= i <= buffer@.len(),
            buffer@ == before,
            rest@ == before.subrange(at as int, i as int),
        decreases buffer@.len() - i,
    {
        rest.push(buffer[i]);
        i = i + 1;
        assert(rest@ =~= before.subrange(at as int, i as int));
    }
    assert(rest@ =~= before.skip(at as int));
    let res: Result<usize, ConvDecodeError> = decoder.decode_soft_whole(encoded, &mut rest);
    let ghost result = rest@;
    let mut j: usize = 0;
    while j < rest.len()
        invariant
            j <= rest@.len(),
            rest@ == result,
            at + rest@.len() == buffer@.len(),
            buffer@.len() == before.len(),
            at <= buffer.len(),
            forall|k: int| 0 <= k < at ==> #[trigger] buffer@[k] == before[k],
            forall|k: int| at <= k < at + j ==> #[trigger] buffer@[k] == result[k - at],
        decreases rest@.len() - j,
    {
        buffer[at + j] = rest[j];
        j = j + 1;
    }
    proof {
        assert(buffer@.skip(at as int) =~= result);
        assert(buffer@.take(at as int) =~= before.take(at as int));
    }
    res
}

/// The outcome of a decode as a C caller sees it: the number of corrections, or
/// -1 for a block that could not be decoded.
pub open spec fn status_of(res: Result<usize, DecodeError>) -> i32 {
    match res {
        Ok(corrected) => corrected as i32,
        Err(_) => -1i32,
    }
}

/// Erased positions counted from the start of the full block, as positions in a
/// block whose first `pad` bytes are left out.
pub open spec fn shortened(locations: Seq<i32>, pad: u8) -> Seq<u8> {
    Seq::new(locations.len(), |i: int| (locations[i] as u8).wrapping_sub(pad))
}

/// What decoding a block in place does.
pub open spec fn decoded_in_place(
    code: Code,
    before: Seq<u8>,
    erasures: Seq<u8>,
    after: Seq<u8>,
    status: i32,
) -> bool {
    if erasures.len() > code.parity {
        status == -1 && after == before
    } else {
        exists|res: Result<usize, DecodeError>| #[trigger]
            decode_result(code, before, erasures, before, after, res) && status == status_of(res)
    }
}

/// The positions lie in the block.
pub open spec fn all_within(erasures: Seq<u8>, len: int) -> bool {
    forall|i: int| 0 <= i < erasures.len() ==> #[trigger] erasures[i] < len
}

fn shorten(locations: &[i32], pad: u8) -> (erasures: Vec<u8>)
    ensures
        erasures@ == shortened(locations@, pad),
        forall|i: int|
            0 <= i < locations@.len() && pad <= locations@[i] < 256 ==> #[trigger] erasures@[i]
                == locations@[i] - pad,
{
    let mut erasures: Vec<u8> = Vec::new();
    let mut i: usize = 0;
    while i < locations.len()
        invariant
            i <= locations@.len(),
            erasures@.len() == i,
            forall|k: int|
                0 <= k < i ==> #[trigger] erasures@[k] == (locations@[k] as u8).wrapping_sub(pad),
        decreases locations@.len() - i,
    {
        let location: u8 = locations[i] as u8;
        erasures.push(location.wrapping_sub(pad));
        i = i + 1;
    }
    assert(erasures@ =~= shortened(locations@, pad));
    erasures
}

/// Decodes a block in place.
fn decode_in_place(dec: &mut RsDecoder, block: &mut [u8], erasures: &[u8]) -> (status: i32)
    requires
        old(dec).wf(),
        old(dec).code().parity <= old(block)@.len() <= 255,
        erasures@.len() <= old(dec).code().parity ==> all_within(
            erasures@,
            old(block)@.len() as int,
        ),
    ensures
        final(dec).wf(),
        final(dec).code() == old(dec).code(),
        final(block)@.len() == old(block)@.len(),
        decoded_in_place(old(dec).code(), old(block)@, erasures@, final(block)@, status),
{
    let ghost before = block@;
    let input: Vec<u8> = vstd::slice::slice_to_vec(block);
    let res: Result<usize, DecodeError> = dec.decode_with_erasures(&input, erasures, block);
    assert(erasures@.len() <= old(dec).code().parity ==> decode_result(
        old(dec).code(),
        before,
        erasures@,
        before,
        block@,
        res,
    ));
    match res {
        Ok(corrected) => corrected as i32,
        Err(_) => -1,
    }
}

/// A Reed-Solomon codec for shortened blocks.
#[derive(Debug, Clone)]
pub struct RsShim {
    enc: Encoder,
    dec: RsDecoder,
    msg_length: usize,
    block_length: usize,
    num_roots: usize,
    pad: usize,
}

impl RsShim {
    pub closed spec fn code(self) -> Code {
        self.dec.code()
    }

    /// The bytes left out of each block.
    pub closed spec fn pad(self) -> int {
        self.pad as int
    }

    /// The bytes of a shortened block.
    pub open spec fn block_length(self) -> int {
        255 - self.pad()
    }

    /// The bytes of a message in a shortened block.
    pub open spec fn msg_length(self) -> int {
        self.block_length() - self.code().parity
    }

    pub closed spec fn wf(self) -> bool {
        &&& self.enc.wf()
        &&& self.dec.wf()
        &&& self.enc.code() == self.dec.code()
        &&& self.pad + self.num_roots <= 255
        &&& self.num_roots == self.dec.code().parity
        &&& self.block_length == 255 - self.pad
        &&& self.msg_length == self.block_length - self.num_roots
    }

    /// A codec for these parameters; `None` for symbols that are not bytes.
    pub fn init_rs_char(
        symbol_size: i32,
        primitive_polynomial: i32,
        first_consecutive_root: i32,
        root_gap: i32,
        number_roots: i32,
        pad: u32,
    ) -> (shim: Option<RsShim>)
        requires
            symbol_size == 8 ==> is_primitive_polynomial(primitive_polynomial as u16),
            symbol_size == 8 ==> 1 <= number_roots && number_roots + pad <= 255,
        ensures
            shim is Some <==> symbol_size == 8,
            shim matches Some(s) ==> {
                &&& s.wf()
                &&& s.pad() == pad
                &&& s.code() == (Code {
                    modulus: primitive_polynomial as u16,
                    first: (first_consecutive_root as u8) as nat,
                    gap: (root_gap as u8) as nat,
                    parity: number_roots as nat,
                })
            },
    {
        if symbol_size != 8 {
            return None;
        }
        let num_roots: usize = number_roots as usize;
        let pad_length: usize = pad as usize;
        let block_length: usize = 255 - pad_length;
        let enc = Encoder::new(
            primitive_polynomial as u16,
            first_consecutive_root as u8,
            root_gap as u8,
            num_roots,
        );
        let dec = RsDecoder::new(
            primitive_polynomial as u16,
            first_consecutive_root as u8,
            root_gap as u8,
            num_roots,
        );
        Some(
            RsShim {
                enc,
                dec,
                msg_length: block_length - num_roots,
                block_length,
                num_roots,
                pad: pad_length,
            },
        )
    }

    /// The lengths of a message and of its parity.
    pub fn lengths(&self) -> (lengths: (usize, usize))
        requires
            self.wf(),
        ensures
            lengths.0 == self.msg_length(),
            lengths.0 == 255 - self.pad() - self.code().parity,
            lengths.1 == self.code().parity,
    {
        (self.msg_length, self.num_roots)
    }

    /// Computes the parity of a message.
    pub fn encode_rs_char(&mut self, msg: &[u8], parity: &mut [u8])
        requires
            old(self).wf(),
            msg@.len() == old(self).msg_length(),
            old(parity)@.len() == old(self).code().parity,
        ensures
            final(self).wf(),
            final(self).code() == old(self).code(),
            final(self).pad() == old(self).pad(),
            old(self).code().is_encoding(msg@, msg@ + final(parity)@),
    {
        encode_parity(&mut self.enc, msg, parity);
    }

    /// Decodes a block in place, with the erased positions counted in the full
    /// block. Returns the number of corrections, or -1.
    pub fn decode_rs_char(&mut self, block: &mut [u8], erasure_locations: &[i32]) -> (status: i32)
        requires
            old(self).wf(),
            old(block)@.len() == old(self).block_length(),
            erasure_locations@.len() <= old(self).code().parity,
            all_within(
                shortened(erasure_locations@, old(self).pad() as u8),
                old(block)@.len() as int,
            ),
        ensures
            final(self).wf(),
            final(self).code() == old(self).code(),
            final(self).pad() == old(self).pad(),
            final(block)@.len() == old(block)@.len(),
            decoded_in_place(
                old(self).code(),
                old(block)@,
                shortened(erasure_locations@, old(self).pad() as u8),
                final(block)@,
                status,
            ),
    {
        let erasures: Vec<u8> = shorten(erasure_locations, self.pad as u8);
        decode_in_place(&mut self.dec, block, &erasures)
    }
}

/// Computes the parity of a message.
fn encode_parity(enc: &mut Encoder, msg: &[u8], parity: &mut [u8])
    requires
        old(enc).wf(),
        msg@.len() + old(enc).code().parity <= 255,
        old(parity)@.len() == old(enc).code().parity,
    ensures
        final(enc).wf(),
        final(enc).code() == old(enc).code(),
        final(parity)@.len() == old(parity)@.len(),
        old(enc).code().is_encoding(msg@, msg@ + final(parity)@),
{
    let ghost code = enc.code();
    let mut block: Vec<u8> = vec![0u8; 255];
    let _ = enc.encode(msg, &mut block);
    let ghost total = msg@.len() + code.parity as int;
    let ghost encoded = block@.take(total);
    let mut i: usize = 0;
    while i < parity.len()
        invariant
            i <= parity@.len(),
            parity@.len() == code.parity,
            msg@.len() + code.parity <= 255,
            block@.len() == 255,
            encoded == block@.take(msg@.len() + code.parity as int),
            msg.len() <= 255,
            forall|k: int| 0 <= k < i ==> #[trigger] parity@[k] == block@[msg@.len() + k],
        decreases parity@.len() - i,
    {
        parity[i] = block[msg.len() + i];
        i = i + 1;
    }
    assert(msg@ + parity@ =~= encoded) by {
        assert(encoded.take(msg@.len() as int) == msg@);
        assert forall|k: int| 0 <= k < msg@.len() implies encoded[k] == #[trigger] msg@[k] by {
            assert(encoded.take(msg@.len() as int)[k] == encoded[k]);
        }
    }
}

/// Computes the 32 bytes of parity of a message in the CCSDS (255,223) code,
/// conventional basis. A shorter message is a shortened block.
pub fn encode_rs_8(rs: &mut Encoder, data: &[u8], parity: &mut [u8])
    requires
        old(rs).wf(),
        old(rs).code() == Code::ccsds(),
        data@.len() <= 223,
        old(parity)@.len() == 32,
    ensures
        final(rs).wf(),
        final(rs).code() == old(rs).code(),
        final(parity)@.len() == 32,
        Code::ccsds().is_encoding(data@, data@ + final(parity)@),
{
    encode_parity(rs, data, parity);
}

/// The part of a full block that may be left out.
pub open spec fn is_pad(pad: int) -> bool {
    0 <= pad <= 222
}

/// Decodes a block of the CCSDS code in place, with the erased positions counted
/// in the full block. Returns the number of corrections, or -1.
pub fn decode_rs_8(
    rs: &mut RsDecoder,
    block: &mut [u8],
    erasure_locations: &[i32],
    pad: i32,
) -> (status: i32)
    requires
        old(rs).wf(),
        old(rs).code() == Code::ccsds(),
        is_pad(pad as int) ==> old(block)@.len() == 255 - pad,
        is_pad(pad as int) && erasure_locations@.len() <= 32 ==> all_within(
            shortened(erasure_locations@, pad as u8),
            255 - pad,
        ),
    ensures
        final(rs).wf(),
        final(rs).code() == old(rs).code(),
        final(block)@.len() == old(block)@.len(),
        !is_pad(pad as int) ==> status == -1 && final(block)@ == old(block)@,
        pad < 0 || pad > 222 ==> status == -1 && final(block)@ == old(block)@,
        is_pad(pad as int) ==> decoded_in_place(
            Code::ccsds(),
            old(block)@,
            shortened(erasure_locations@, pad as u8),
            final(block)@,
            status,
        ),
{
    if pad < 0 || pad > 222 {
        return -1;
    }
    let erasures: Vec<u8> = shorten(erasure_locations, pad as u8);
    decode_in_place(rs, block, &erasures)
}

/// Computes the parity of a message in the CCSDS code, dual basis.
pub fn encode_rs_ccsds(rs: &mut Encoder, data: &[u8], parity: &mut [u8])
    requires
        old(rs).wf(),
        old(rs).code() == Code::ccsds(),
        data@.len() <= 223,
        old(parity)@.len() == 32,
    ensures
        final(rs).wf(),
        final(rs).code() == old(rs).code(),
        final(parity)@.len() == 32,
        Code::ccsds().is_encoding(seq_to_conv(data@), seq_to_conv(data@ + final(parity)@)),
{
    let conv_msg: Vec<u8> = dual_to_conv_all(data);
    encode_rs_8(rs, &conv_msg, parity);
    let ghost conv = parity@;
    to_dual_in_place(parity);
    proof {
        let whole = data@ + parity@;
        assert forall|i: int| 0 <= i < whole.len() implies #[trigger] seq_to_conv(whole)[i] == (
        seq_to_conv(data@) + conv)[i] by {
            if i >= data@.len() {
                lemma_maps_are_inverse(conv[i - data@.len()]);
            }
        }
        assert(seq_to_conv(whole) =~= seq_to_conv(data@) + conv);
    }
}

fn to_dual_in_place(bytes: &mut [u8])
    ensures
        final(bytes)@ == seq_to_dual(old(bytes)@),
{
    let ghost before = bytes@;
    let mut i: usize = 0;
    while i < bytes.len()
        invariant
            i <= bytes@.len(),
            bytes@.len() == before.len(),
            forall|k: int| 0 <= k < i ==> #[trigger] bytes@[k] == to_dual(before[k]),
            forall|k: int| i <= k < before.len() ==> #[trigger] bytes@[k] == before[k],
        decreases bytes@.len() - i,
    {
        bytes[i] = conv_to_dual(bytes[i]);
        i = i + 1;
    }
    assert(bytes@ =~= seq_to_dual(before));
}

/// Decodes a block of the CCSDS code in the dual basis in place. Returns the
/// number of corrections, or -1.
pub fn decode_rs_ccsds(
    rs: &mut RsDecoder,
    block: &mut [u8],
    erasure_locations: &[i32],
    pad: i32,
) -> (status: i32)
    requires
        old(rs).wf(),
        old(rs).code() == Code::ccsds(),
        is_pad(pad as int) ==> old(block)@.len() == 255 - pad,
        is_pad(pad as int) && erasure_locations@.len() <= 32 ==> all_within(
            shortened(erasure_locations@, pad as u8),
            255 - pad,
        ),
    ensures
        final(rs).wf(),
        final(rs).code() == old(rs).code(),
        final(block)@.len() == old(block)@.len(),
        !is_pad(pad as int) ==> status == -1 && final(block)@ == old(block)@,
        pad < 0 || pad > 222 ==> status == -1 && final(block)@ == old(block)@,
        is_pad(pad as int) ==> decoded_in_place(
            Code::ccsds(),
            seq_to_conv(old(block)@),
            shortened(erasure_locations@, pad as u8),
            seq_to_conv(final(block)@),
            status,
        ),
{
    if pad < 0 || pad > 222 {
        return -1;
    }
    let mut conv: Vec<u8> = dual_to_conv_all(block);
    let status: i32 = decode_rs_8(rs, &mut conv, erasure_locations, pad);
    let mut i: usize = 0;
    while i < block.len()
        invariant
            i <= block@.len(),
            block@.len() == conv@.len(),
            forall|k: int| 0 <= k < i ==> #[trigger] block@[k] == to_dual(conv@[k]),
        decreases block@.len() - i,
    {
        block[i] = conv_to_dual(conv[i]);
        i = i + 1;
    }
    proof {
        assert forall|k: int| 0 <= k < conv@.len() implies #[trigger] seq_to_conv(block@)[k]
            == conv@[k] by {
            lemma_maps_are_inverse(conv@[k]);
        }
        assert(seq_to_conv(block@) =~= conv@);
    }
    status
}

/// How far a block moves the write position: by the whole bytes of what is left when
/// `order - 1` steps are taken off, or to the end of the buffer where that comes first.
pub proof fn lemma_advance(num_symbols: int, rate: int, order: int, room: int)
    requires
        rate >= 1,
        room >= 0,
        num_symbols / rate >= order - 1,
    ensures
        ({
            let bits = num_symbols / rate - (order - 1);
            let moved = advance(num_symbols, rate, order, room);
            &&& bits <= 8 * room ==> 8 * moved <= bits < 8 * moved + 8
            &&& bits > 8 * room ==> moved == room
        }),
{
}

/// A message followed by `tail` zeros, to flush the register.
pub open spec fn with_tail(msg: Seq<u8>, tail: nat) -> Seq<bool> {
    bits_of(msg) + Seq::new(tail, |i: int| false)
}

/// A message that was encoded with zeros behind it and arrives as confident
/// symbols lies decoded in the buffer, and the write position has advanced by
/// just its length: the bytes waiting to be handed out are the message. The zeros
/// may be the `order - 1` that flush the register or up to seven more, so this
/// holds of the framing of C programs and of that of the encoder.
pub proof fn lemma_message_waits(
    code: Trellis,
    msg: Seq<u8>,
    tail: nat,
    symbols: Seq<u8>,
    before: Seq<u8>,
    after: Seq<u8>,
    res: Result<usize, ConvDecodeError>,
)
    requires
        code.valid(),
        code.order >= 4,
        code.has_tap(),
        code.order - 1 <= tail <= code.order + 6,
        8 * msg.len() + tail >= 2 * code.order - 1,
        symbols.len() == code.rate * (8 * msg.len() + tail),
        symbols.len() <= usize::MAX,
        forall|k: int|
            0 <= k < symbols.len() ==> #[trigger] symbols[k] == if code.encoded_bit(
                with_tail(msg, tail),
                k,
            ) {
                255u8
            } else {
                0u8
            },
        before.len() >= msg.len(),
        block_decoded(code, symbols, before, after, res),
    ensures
        res is Ok,
        advance(
            symbols.len() as int,
            code.rate as int,
            code.order as int,
            before.len() as int,
        ) == msg.len(),
        after.take(msg.len() as int) == msg,
{
    let steps = (8 * msg.len() + tail) as int;
    let rate = code.rate as int;
    let cost = soft_cost(symbols, None);
    let x = with_tail(msg, tail);
    let run = run_for(code, cost, symbols.len() as int);
    lemma_div_multiples_vanish(steps, rate);
    lemma_mod_multiples_basic(steps, rate);
    assert(steps * rate == rate * steps) by (nonlinear_arith);
    lemma_costs_bounded(symbols, None);
    assert(code.clean(cost, x)) by {
        assert forall|k: int, b: bool| 0 <= k < x.len() * code.rate implies (#[trigger] cost(k, b)
            == 0 <==> b == code.encoded_bit(x, k)) by {
            assert(symbols[k] == if code.encoded_bit(x, k) {
                255u8
            } else {
                0u8
            });
        }
    }
    let out = after.take(msg.len() as int);
    assert forall|i: int| 0 <= i < 8 * out.len() implies #[trigger] bit_at(out, i) == bit_at(
        msg,
        i,
    ) by {
        assert(out[i / 8] == after[i / 8]);
        assert(bit_at(after, i) == run.decoded_bit(i));
        lemma_clean_bit(run, x, i);
        assert(x[i] == bits_of(msg)[i]);
    }
    lemma_bytes_from_bits(out, msg);
}

/// The blocks that are taken: a whole number of steps, at least `2 * order - 1` of them,
/// whose whole bytes without the last `order + 1` steps fit the room.
pub proof fn lemma_accepts(code: Trellis, num_symbols: int, room: int)
    requires
        code.valid(),
        room >= 0,
    ensures
        accepts(code, num_symbols, room) <==> {
            let steps = num_symbols / (code.rate as int);
            &&& num_symbols % (code.rate as int) == 0
            &&& steps >= 2 * code.order - 1
            &&& steps - (code.order + 1) < 8 * room + 8
        },
{
}

/// Every bit that a block leaves in the buffer, whatever arrived, is read from the path
/// that lies closest to the symbols seen so far; and a block leaves every whole byte
/// that it yields, as far as the buffer goes.
pub proof fn lemma_waiting_bit(
    code: Trellis,
    symbols: Seq<u8>,
    before: Seq<u8>,
    after: Seq<u8>,
    res: Result<usize, ConvDecodeError>,
    r: int,
) -> (y: Seq<bool>)
    requires
        code.valid(),
        code.order >= 4,
        symbols.len() <= usize::MAX,
        block_decoded(code, symbols, before, after, res),
        res is Ok,
        0 <= r < 8 * res->Ok_0,
    ensures
        is_read_from(
            code.order as int,
            symbols.len() as int / (code.rate as int),
            |z: Seq<bool>| symbols_off(code, symbols, None, z),
            r,
            y,
        ),
        ((after[r / 8] >> ((7 - r % 8) as u8)) & 1u8 == 1u8) == y[r],
        ({
            let bits = symbols.len() as int / (code.rate as int) - (code.order - 1);
            if bits <= 8 * before.len() + 7 {
                8 * res->Ok_0 <= bits < 8 * res->Ok_0 + 8
            } else {
                res->Ok_0 == before.len()
            }
        }),
{
    let cost = soft_cost(symbols, None);
    let off = |z: Seq<bool>| symbols_off(code, symbols, None, z);
    lemma_costs_bounded(symbols, None);
    assert forall|z: Seq<bool>| off_by(code, cost, z) == #[trigger] off(z) by {
        let f = |k: int| cost(k, code.encoded_bit(z, k));
        let g = |k: int|
            if counts(None, k) && symbols[k] != 128 {
                far(symbols[k], code.encoded_bit(z, k))
            } else {
                0nat
            };
        lemma_total_equal(f, g, z.len() * code.rate);
    }
    let y = lemma_read_from(code, cost, symbols.len() as int, off, r);
    assert(bit_at(after, r) == y[r]);
    y
}

/// A block that carries a message and its parity is restored in place, as long as
/// twice the number of errors plus the number of erasures does not exceed the
/// number of parity bytes: the message comes back and the status counts the
/// corrections.
pub proof fn lemma_block_restored(
    code: Code,
    data: Seq<u8>,
    parity: Seq<u8>,
    before: Seq<u8>,
    erasures: Seq<u8>,
    after: Seq<u8>,
    status: i32,
)
    requires
        code.valid(),
        code.valid_gap(),
        code.gap < 256,
        code.is_encoding(data, data + parity),
        data.len() + code.parity <= 255,
        before.len() == data.len() + code.parity,
        valid_erasures(before.len() as int, erasures),
        erasures.len() + 2 * error_positions(data + parity, before, erasures, before.len()).len()
            <= code.parity,
        decoded_in_place(code, before, erasures, after, status),
    ensures
        after.take(data.len() as int) == data,
        after.skip(data.len() as int) == before.skip(data.len() as int),
        status == if before == data + parity {
            0
        } else {
            (erasures.len() + error_positions(
                data + parity,
                before,
                erasures,
                before.len(),
            ).len()) as int
        },
{
    lemma_round_trip(code, data, data + parity, before, erasures);
}

/// The same for a block of the CCSDS code in the dual basis.
pub proof fn lemma_dual_block_restored(
    data: Seq<u8>,
    parity: Seq<u8>,
    before: Seq<u8>,
    erasures: Seq<u8>,
    after: Seq<u8>,
    status: i32,
)
    requires
        Code::ccsds().is_encoding(seq_to_conv(data), seq_to_conv(data + parity)),
        data.len() <= 223,
        before.len() == data.len() + 32,
        after.len() == before.len(),
        valid_erasures(before.len() as int, erasures),
        erasures.len() + 2 * error_positions(data + parity, before, erasures, before.len()).len()
            <= 32,
        decoded_in_place(
            Code::ccsds(),
            seq_to_conv(before),
            erasures,
            seq_to_conv(after),
            status,
        ),
    ensures
        after.take(data.len() as int) == data,
        after.skip(data.len() as int) == before.skip(data.len() as int),
        status == if before == data + parity {
            0
        } else {
            (erasures.len() + error_positions(
                data + parity,
                before,
                erasures,
                before.len(),
            ).len()) as int
        },
{
    let n = data.len() as int;
    let (conv_before, conv_after) = (seq_to_conv(before), seq_to_conv(after));
    lemma_ccsds_valid();
    lemma_dual_round_trip(Code::ccsds(), data, data + parity, before, erasures);
    assert(seq_to_dual(conv_after.take(n)) == data);
    assert forall|i: int| 0 <= i < n implies after[i] == #[trigger] data[i] by {
        assert(seq_to_dual(conv_after.take(n))[i] == to_dual(conv_after[i]));
        lemma_maps_are_inverse(after[i]);
    }
    assert(after.take(n) =~= data);
    assert forall|i: int| n <= i < before.len() implies after[i] == #[trigger] before[i] by {
        assert(conv_after.skip(n)[i - n] == conv_before.skip(n)[i - n]);
        lemma_maps_are_inverse(after[i]);
        lemma_maps_are_inverse(before[i]);
    }
    assert(after.skip(n) =~= before.skip(n));
}

/// The caller names place `i` of the shortened block: a location lies `pad` places
/// behind it.
pub open spec fn is_named(locations: Seq<i32>, pad: u8, i: int) -> bool {
    exists|k: int| 0 <= k < locations.len() && #[trigger] locations[k] == i + pad
}

/// The locations are different places of the full block, none of them among those
/// that are left out.
pub open spec fn are_places(locations: Seq<i32>, pad: u8) -> bool {
    &&& forall|k: int| 0 <= k < locations.len() ==> pad <= #[trigger] locations[k] < 255
    &&& forall|j: int, k: int|
        0 <= j < k < locations.len() ==> #[trigger] locations[j] != #[trigger] locations[k]
}

/// Locations name the places of the shortened block that lie `pad` places before
/// them, and no others.
proof fn lemma_named(locations: Seq<i32>, pad: u8)
    requires
        are_places(locations, pad),
    ensures
        valid_erasures(255 - pad, shortened(locations, pad)),
        all_within(shortened(locations, pad), 255 - pad),
        shortened(locations, pad).len() == locations.len(),
        forall|k: int|
            0 <= k < locations.len() ==> #[trigger] shortened(locations, pad)[k] == locations[k]
                - pad,
        forall|i: int|
            #[trigger] is_named(locations, pad, i) == is_flagged(shortened(locations, pad), i),
{
    let erasures = shortened(locations, pad);
    assert forall|k: int| 0 <= k < locations.len() implies #[trigger] erasures[k] == locations[k]
        - pad by {
        let location = locations[k];
        assert(pad <= location < 255);
    }
    assert forall|i: int| #[trigger]
        is_named(locations, pad, i) == is_flagged(erasures, i) by {
        if is_named(locations, pad, i) {
            let k = choose|k: int| 0 <= k < locations.len() && #[trigger] locations[k] == i + pad;
            assert(erasures[k] == i);
        }
        if is_flagged(erasures, i) {
            let k = choose|k: int| 0 <= k < erasures.len() && #[trigger] erasures[k] == i;
            assert(locations[k] == i + pad);
        }
    }
}

/// Decoding in place treats the bytes that lie `pad` before the caller's locations as
/// erased, and no others. A block of `255 - pad` bytes that carries a message and its
/// parity is restored as long as the number of locations and twice the number of wrong
/// bytes elsewhere do not exceed the number of parity bytes; the status counts both.
pub proof fn lemma_locations_restored(
    code: Code,
    data: Seq<u8>,
    parity: Seq<u8>,
    before: Seq<u8>,
    locations: Seq<i32>,
    pad: u8,
    after: Seq<u8>,
    status: i32,
)
    requires
        code.valid(),
        code.gap < 256,
        code.gap % 3 != 0,
        code.gap % 5 != 0,
        code.gap % 17 != 0,
        code.is_encoding(data, data + parity),
        data.len() + code.parity == 255 - pad,
        before.len() == 255 - pad,
        after.len() == before.len(),
        are_places(locations, pad),
        locations.len() + 2 * wrong_places(
            data + parity,
            before,
            |i: int| is_named(locations, pad, i),
        ).len() <= code.parity,
        decoded_in_place(code, before, shortened(locations, pad), after, status),
    ensures
        all_within(shortened(locations, pad), 255 - pad),
        forall|i: int| 0 <= i < data.len() ==> #[trigger] after[i] == data[i],
        forall|i: int| data.len() <= i < after.len() ==> #[trigger] after[i] == before[i],
        status == if before == data + parity {
            0
        } else {
            (locations.len() + wrong_places(
                data + parity,
                before,
                |i: int| is_named(locations, pad, i),
            ).len()) as int
        },
{
    let erasures = shortened(locations, pad);
    let sent = data + parity;
    let n = data.len() as int;
    lemma_named(locations, pad);
    lemma_wrong_places(sent, before, erasures, |i: int| is_named(locations, pad, i));
    lemma_block_restored(code, data, parity, before, erasures, after, status);
    assert forall|i: int| 0 <= i < n implies #[trigger] after[i] == data[i] by {
        assert(after.take(n)[i] == data[i]);
    }
    assert forall|i: int| n <= i < after.len() implies #[trigger] after[i] == before[i] by {
        assert(after.skip(n)[i - n] == before.skip(n)[i - n]);
    }
}

/// So a block whose errors all lie at bytes that the caller names, at most as many as
/// there are parity bytes, comes back as the message.
pub proof fn lemma_named_errors_restored(
    code: Code,
    data: Seq<u8>,
    parity: Seq<u8>,
    before: Seq<u8>,
    locations: Seq<i32>,
    pad: u8,
    after: Seq<u8>,
    status: i32,
)
    requires
        code.valid(),
        code.gap < 256,
        code.gap % 3 != 0,
        code.gap % 5 != 0,
        code.gap % 17 != 0,
        code.is_encoding(data, data + parity),
        data.len() + code.parity == 255 - pad,
        before.len() == 255 - pad,
        after.len() == before.len(),
        are_places(locations, pad),
        locations.len() <= code.parity,
        forall|i: int|
            0 <= i < before.len() && #[trigger] before[i] != (data + parity)[i] ==> exists|k: int|
                0 <= k < locations.len() && #[trigger] locations[k] - pad == i,
        decoded_in_place(code, before, shortened(locations, pad), after, status),
    ensures
        after.take(data.len() as int) == data,
        status == if before == data + parity {
            0
        } else {
            locations.len() as int
        },
{
    let named = |i: int| is_named(locations, pad, i);
    lemma_all_named(data + parity, before, locations, pad);
    lemma_locations_restored(code, data, parity, before, locations, pad, after, status);
    assert(after.take(data.len() as int) =~= data);
}

/// Where every wrong byte is named there are no others.
proof fn lemma_all_named(sent: Seq<u8>, before: Seq<u8>, locations: Seq<i32>, pad: u8)
    requires
        forall|i: int|
            0 <= i < before.len() && #[trigger] before[i] != sent[i] ==> exists|k: int|
                0 <= k < locations.len() && #[trigger] locations[k] - pad == i,
    ensures
        wrong_places(sent, before, |i: int| is_named(locations, pad, i)).len() == 0,
{
    broadcast use vstd::seq_lib::group_filter_ensures;

    let named = |i: int| is_named(locations, pad, i);
    let pred = |i: int| before[i] != sent[i] && !named(i);
    let all = Seq::new(before.len(), |i: int| i);
    let found = wrong_places(sent, before, named);
    if found.len() > 0 {
        let i = found[0];
        assert(found == all.filter(pred));
        assert(pred(i));
        assert(all.filter(pred).contains(i));
        all.lemma_filter_contains_rev(pred, i);
        assert(before[i] != sent[i]);
        let k = choose|k: int| 0 <= k < locations.len() && #[trigger] locations[k] - pad == i;
        assert(locations[k] == i + pad);
        assert(named(i));
    }
}

/// The same for the CCSDS code in the dual basis, with all bytes counted on the wire.
pub proof fn lemma_dual_locations_restored(
    data: Seq<u8>,
    parity: Seq<u8>,
    before: Seq<u8>,
    locations: Seq<i32>,
    pad: u8,
    after: Seq<u8>,
    status: i32,
)
    requires
        Code::ccsds().is_encoding(seq_to_conv(data), seq_to_conv(data + parity)),
        data.len() + 32 == 255 - pad,
        before.len() == 255 - pad,
        after.len() == before.len(),
        are_places(locations, pad),
        locations.len() + 2 * wrong_places(
            data + parity,
            before,
            |i: int| is_named(locations, pad, i),
        ).len() <= 32,
        decoded_in_place(
            Code::ccsds(),
            seq_to_conv(before),
            shortened(locations, pad),
            seq_to_conv(after),
            status,
        ),
    ensures
        all_within(shortened(locations, pad), 255 - pad),
        forall|i: int| 0 <= i < data.len() ==> #[trigger] after[i] == data[i],
        forall|i: int| data.len() <= i < after.len() ==> #[trigger] after[i] == before[i],
        status == if before == data + parity {
            0
        } else {
            (locations.len() + wrong_places(
                data + parity,
                before,
                |i: int| is_named(locations, pad, i),
            ).len()) as int
        },
{
    let erasures = shortened(locations, pad);
    let sent = data + parity;
    let n = data.len() as int;
    lemma_named(locations, pad);
    lemma_wrong_places(sent, before, erasures, |i: int| is_named(locations, pad, i));
    lemma_dual_block_restored(data, parity, before, erasures, after, status);
    assert forall|i: int| 0 <= i < n implies #[trigger] after[i] == data[i] by {
        assert(after.take(n)[i] == data[i]);
    }
    assert forall|i: int| n <= i < after.len() implies #[trigger] after[i] == before[i] by {
        assert(after.skip(n)[i - n] == before.skip(n)[i - n]);
    }
}

/// More locations than parity bytes are refused, and the block stays as it is.
pub proof fn lemma_too_many_locations(
    code: Code,
    before: Seq<u8>,
    locations: Seq<i32>,
    pad: u8,
    after: Seq<u8>,
    status: i32,
)
    requires
        locations.len() > code.parity,
        decoded_in_place(code, before, shortened(locations, pad), after, status),
    ensures
        status == -1,
        after == before,
{
}

/// A status of -1 means that the block could not be decoded and stays as it is; no
/// other status is negative.
pub proof fn lemma_refused_block(
    code: Code,
    before: Seq<u8>,
    erasures: Seq<u8>,
    after: Seq<u8>,
    status: i32,
)
    requires
        code.valid(),
        code.parity <= before.len() <= 255,
        after.len() == before.len(),
        decoded_in_place(code, before, erasures, after, status),
    ensures
        -1 <= status <= 510,
        status == -1 ==> after == before,
{
    if erasures.len() <= code.parity {
        let res = choose|res: Result<usize, DecodeError>| #[trigger]
            decode_result(code, before, erasures, before, after, res) && status == status_of(res);
        if let Some((count, poly)) = code.decode(before, erasures) {
            lemma_decode_count(code, before, erasures);
        }
    }
}

/// A block without error, whatever the erasures, needs no correction and keeps all its
/// bytes.
pub proof fn lemma_clean_block_kept(
    code: Code,
    before: Seq<u8>,
    erasures: Seq<u8>,
    after: Seq<u8>,
    status: i32,
)
    requires
        code.valid(),
        code.is_codeword(before),
        erasures.len() <= code.parity,
        after.len() == before.len(),
        decoded_in_place(code, before, erasures, after, status),
    ensures
        status == 0,
        after == before,
{
    let n = before.len() - code.parity;
    lemma_clean_block(code, before, erasures);
    assert(after.take(n) == before.take(n));
    assert(after =~= after.take(n) + after.skip(n));
    assert(before =~= before.take(n) + before.skip(n));
}

} // verus!
