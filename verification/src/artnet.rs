//! Art-Net DMX packets for the stage light that follows the rotation.
use vstd::prelude::*;

verus! {

/// Number of DMX channels in one universe.
pub const DMX_CHANNELS: usize = 512;

/// First channel (0-based) of the light: its DMX start channel 87.
pub const INFINIMAT_START: usize = 86;

/// Bytes in front of the channel data of an ArtDmx packet.
pub const ARTDMX_HEADER_LEN: usize = 18;

/// The ArtDmx header for `universe`: the id `"Art-Net\0"`, OpCode 0x5000
/// (little-endian), protocol version 14 (big-endian), sequence and physical
/// 0, the 15-bit universe (little-endian) and the data length 512
/// (big-endian).
pub open spec fn artdmx_header(universe: u16) -> Seq<u8> {
    seq![
        0x41u8, 0x72u8, 0x74u8, 0x2du8, 0x4eu8, 0x65u8, 0x74u8, 0x00u8,
        0x00u8, 0x50u8,
        0x00u8, 0x0eu8,
        0u8,
        0u8,
        (universe & 0xff) as u8,
        ((universe >> 8) & 0x7f) as u8,
        0x02u8, 0x00u8,
    ]
}

/// Builds the ArtDmx packet that carries the 512 channels of `dmx` to `universe`.
pub fn artnet_dmx_packet(universe: u16, dmx: &[u8; 512]) -> (p: Vec<u8>)
    ensures
        p@ == artdmx_header(universe) + dmx@,
{
    let mut p: Vec<u8> = Vec::new();
    p.push(0x41);
    p.push(0x72);
    p.push(0x74);
    p.push(0x2d);
    p.push(0x4e);
    p.push(0x65);
    p.push(0x74);
    p.push(0x00);
    p.push(0x00);
    p.push(0x50);
    p.push(0x00);
    p.push(0x0e);
    p.push(0);
    p.push(0);
    p.push((universe & 0xff) as u8);
    p.push(((universe >> 8) & 0x7f) as u8);
    p.push(0x02);
    p.push(0x00);
    let ghost header = p@;
    assert(header =~= artdmx_header(universe));
    let mut i: usize = 0;
    while i < DMX_CHANNELS
        invariant
            dmx@.len() == DMX_CHANNELS,
            header == artdmx_header(universe),
            i <= DMX_CHANNELS,
            p@ == header + dmx@.take(i as int),
        decreases DMX_CHANNELS - i,
    {
        p.push(dmx[i]);
        i = i + 1;
        assert(p@ =~= header + dmx@.take(i as int));
    }
    assert(dmx@.take(DMX_CHANNELS as int) =~= dmx@);
    p
}

/// The channels that set the light to full intensity and colour `(r, g, b)`:
/// intensity, red, green and blue each as a 16-bit pair (the colour byte
/// repeated), white and warm white off, every other channel 0.
pub open spec fn light_channels(r: u8, g: u8, b: u8) -> Seq<u8> {
    Seq::new(
        DMX_CHANNELS as nat,
        |i: int|
            if i == INFINIMAT_START || i == INFINIMAT_START + 1 {
                255u8
            } else if i == INFINIMAT_START + 2 || i == INFINIMAT_START + 3 {
                r
            } else if i == INFINIMAT_START + 4 || i == INFINIMAT_START + 5 {
                g
            } else if i == INFINIMAT_START + 6 || i == INFINIMAT_START + 7 {
                b
            } else {
                0u8
            },
    )
}

/// The DMX universe that sets the light to full intensity and colour `(r, g, b)`.
pub fn infinimat_dmx(r: u8, g: u8, b: u8) -> (d: [u8; 512])
    ensures
        d@ == light_channels(r, g, b),
{
    let mut dmx = [0u8; 512];
    dmx[INFINIMAT_START] = 255;
    dmx[INFINIMAT_START + 1] = 255;
    dmx[INFINIMAT_START + 2] = r;
    dmx[INFINIMAT_START + 3] = r;
    dmx[INFINIMAT_START + 4] = g;
    dmx[INFINIMAT_START + 5] = g;
    dmx[INFINIMAT_START + 6] = b;
    dmx[INFINIMAT_START + 7] = b;
    assert(dmx@ =~= light_channels(r, g, b));
    dmx
}

/// The packet that sets the light, on universe 0, to colour `(r, g, b)`.
pub fn light_packet(r: u8, g: u8, b: u8) -> (p: Vec<u8>)
    ensures
        p@ == artdmx_header(0) + light_channels(r, g, b),
{
    let dmx = infinimat_dmx(r, g, b);
    artnet_dmx_packet(0, &dmx)
}

/// An ArtDmx packet is 530 bytes long; its header reads back as the
/// `"Art-Net"` id, OpCode 0x5000, protocol version 14, data length 512 and
/// the universe's low 15 bits; its last 512 bytes are the channel data.
pub proof fn lemma_artdmx_fields(universe: u16, dmx: Seq<u8>)
    requires
        dmx.len() == DMX_CHANNELS,
    ensures
        ({
            let p = artdmx_header(universe) + dmx;
            &&& p.len() == ARTDMX_HEADER_LEN + DMX_CHANNELS
            &&& p.take(8) == seq![0x41u8, 0x72u8, 0x74u8, 0x2du8, 0x4eu8, 0x65u8, 0x74u8, 0x00u8]
            &&& (p[8] as u16) | ((p[9] as u16) << 8) == 0x5000u16
            &&& ((p[10] as u16) << 8) | (p[11] as u16) == 14u16
            &&& (p[14] as u16) | ((p[15] as u16) << 8) == universe & 0x7fff
            &&& ((p[16] as u16) << 8) | (p[17] as u16) == 512u16
            &&& p.skip(ARTDMX_HEADER_LEN as int) == dmx
        }),
{
    let p = artdmx_header(universe) + dmx;
    assert(p.take(8) =~= seq![0x41u8, 0x72u8, 0x74u8, 0x2du8, 0x4eu8, 0x65u8, 0x74u8, 0x00u8]);
    assert(p.skip(ARTDMX_HEADER_LEN as int) =~= dmx);
    assert(((0x00u8 as u16) | ((0x50u8 as u16) << 8)) == 0x5000u16) by (bit_vector);
    assert((((0x00u8 as u16) << 8) | (0x0eu8 as u16)) == 14u16) by (bit_vector);
    assert((((0x02u8 as u16) << 8) | (0x00u8 as u16)) == 512u16) by (bit_vector);
    assert((((universe & 0xff) as u8 as u16) | ((((universe >> 8) & 0x7f) as u8 as u16) << 8))
        == universe & 0x7fff) by (bit_vector);
}

} // verus!
