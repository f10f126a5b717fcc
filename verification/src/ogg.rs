//! Ogg Opus containers: splitting a stream into pages and packets, reading
//! the `OpusHead` identification header, and writing a stream of single-packet
//! pages with their CRC.
use vstd::arithmetic::power2::*;
use vstd::prelude::*;

verus! {

/// Why an Ogg Opus stream was refused.
#[derive(Debug, Clone, Copy, PartialEq, Eq, Structural)]
pub enum OggError {
    PageHeaderTruncated,
    CaptureMissing,
    UnsupportedVersion,
    SegmentTableTruncated,
    PayloadTruncated,
    ContinuedPageEmpty,
    ContinuationWithoutPrevious,
    ContinuationMissing,
    IncompletePacketMissingData,
    ContinuationUnfinished,
    EndsInsideContinuedPacket,
    MissingOpusHead,
    OpusHeadTruncated,
    UnsupportedOpusHeadVersion,
    UnsupportedChannelCount,
    UnsupportedMappingFamily,
    MissingOpusTags,
}

impl OggError {
    /// The stream may only be cut short: more bytes could make it parse.
    pub open spec fn incomplete(self) -> bool {
        ||| self is PageHeaderTruncated
        ||| self is SegmentTableTruncated
        ||| self is PayloadTruncated
        ||| self is OpusHeadTruncated
        ||| self is EndsInsideContinuedPacket
    }

    /// Whether more bytes could make the stream parse.
    pub fn is_incomplete(&self) -> (res: bool)
        ensures
            res == self.incomplete(),
    {
        match self {
            OggError::PageHeaderTruncated | OggError::SegmentTableTruncated
            | OggError::PayloadTruncated | OggError::OpusHeadTruncated
            | OggError::EndsInsideContinuedPacket => true,
            _ => false,
        }
    }

    /// The stream is well formed but uses a feature this codec does not handle.
    pub open spec fn unsupported(self) -> bool {
        ||| self is UnsupportedVersion
        ||| self is UnsupportedOpusHeadVersion
        ||| self is UnsupportedChannelCount
        ||| self is UnsupportedMappingFamily
    }

    /// Whether the stream uses a feature this codec does not handle.
    pub fn is_unsupported(&self) -> (res: bool)
        ensures
            res == self.unsupported(),
    {
        match self {
            OggError::UnsupportedVersion | OggError::UnsupportedOpusHeadVersion
            | OggError::UnsupportedChannelCount | OggError::UnsupportedMappingFamily => true,
            _ => false,
        }
    }
}

/// The page capture pattern `OggS`.
pub open spec fn ogg_capture() -> Seq<u8> {
    seq![0x4fu8, 0x67u8, 0x67u8, 0x53u8]
}

/// The identification-header magic `OpusHead`.
pub open spec fn opus_head_magic() -> Seq<u8> {
    seq![0x4fu8, 0x70u8, 0x75u8, 0x73u8, 0x48u8, 0x65u8, 0x61u8, 0x64u8]
}

/// The comment-header magic `OpusTags`.
pub open spec fn opus_tags_magic() -> Seq<u8> {
    seq![0x4fu8, 0x70u8, 0x75u8, 0x73u8, 0x54u8, 0x61u8, 0x67u8, 0x73u8]
}

fn ogg_capture_bytes() -> (res: [u8; 4])
    ensures
        res@ == ogg_capture(),
{
    let res = [0x4fu8, 0x67u8, 0x67u8, 0x53u8];
    assert(res@ =~= ogg_capture());
    res
}

fn opus_head_bytes() -> (res: [u8; 8])
    ensures
        res@ == opus_head_magic(),
{
    let res = [0x4fu8, 0x70u8, 0x75u8, 0x73u8, 0x48u8, 0x65u8, 0x61u8, 0x64u8];
    assert(res@ =~= opus_head_magic());
    res
}

fn opus_tags_bytes() -> (res: [u8; 8])
    ensures
        res@ == opus_tags_magic(),
{
    let res = [0x4fu8, 0x70u8, 0x75u8, 0x73u8, 0x54u8, 0x61u8, 0x67u8, 0x73u8];
    assert(res@ =~= opus_tags_magic());
    res
}

/// `hay` begins with `pat`.
pub open spec fn has_prefix(hay: Seq<u8>, pat: Seq<u8>) -> bool {
    pat.len() <= hay.len() && hay.subrange(0, pat.len() as int) == pat
}

/// Whether `hay` begins with `pat`.
pub fn starts_with(hay: &[u8], pat: &[u8]) -> (res: bool)
    ensures
        res == has_prefix(hay@, pat@),
{
    if pat.len() > hay.len() {
        return false;
    }
    let mut i: usize = 0;
    while i < pat.len()
        invariant
            pat@.len() <= hay@.len(),
            0 <= i <= pat@.len(),
            forall|j: int| 0 <= j < i ==> hay@[j] == pat@[j],
        decreases pat@.len() - i,
    {
        if hay[i] != pat[i] {
            assert(hay@.subrange(0, pat@.len() as int)[i as int] != pat@[i as int]);
            return false;
        }
        i += 1;
    }
    assert(hay@.subrange(0, pat@.len() as int) =~= pat@);
    true
}

/// `needle` occurs somewhere in `hay`.
pub open spec fn occurs_in(hay: Seq<u8>, needle: Seq<u8>) -> bool {
    needle.len() > 0 && exists|i: int|
        0 <= i && i + needle.len() <= hay.len() && #[trigger] hay.subrange(i, i + needle.len())
            == needle
}

/// Whether the non-empty `needle` occurs in `haystack`.
pub fn contains(haystack: &[u8], needle: &[u8]) -> (res: bool)
    ensures
        res == occurs_in(haystack@, needle@),
{
    if needle.len() == 0 || needle.len() > haystack.len() {
        return false;
    }
    let mut i: usize = 0;
    while i <= haystack.len() - needle.len()
        invariant
            0 < needle@.len() <= haystack@.len(),
            0 <= i <= haystack@.len() - needle@.len() + 1,
            forall|k: int|
                0 <= k < i ==> #[trigger] haystack@.subrange(k, k + needle@.len()) != needle@,
        decreases haystack@.len() - i,
    {
        if starts_with(&haystack[i..haystack.len()], needle) {
            assert(haystack@.subrange(i as int, haystack@.len() as int).subrange(0, needle@.len() as int)
                =~= haystack@.subrange(i as int, i + needle@.len()));
            return true;
        }
        assert(haystack@.subrange(i as int, haystack@.len() as int).subrange(0, needle@.len() as int)
            =~= haystack@.subrange(i as int, i + needle@.len()));
        i += 1;
    }
    false
}

/// One bit of the MSB-first CRC with generator `0x04c11db7`.
pub open spec fn crc_shift(c: u32) -> u32 {
    if c & 0x8000_0000 != 0 {
        (c << 1u32) ^ 0x04c1_1db7
    } else {
        c << 1u32
    }
}

/// `k` bits of the CRC register.
pub open spec fn crc_shifts(c: u32, k: nat) -> u32
    decreases k,
{
    if k == 0 {
        c
    } else {
        crc_shift(crc_shifts(c, (k - 1) as nat))
    }
}

/// The Ogg page CRC (generator `0x04c11db7`, zero initial value, no final
/// XOR) of `bytes`.
pub open spec fn ogg_crc_spec(bytes: Seq<u8>) -> u32
    decreases bytes.len(),
{
    if bytes.len() == 0 {
        0
    } else {
        let c = ogg_crc_spec(bytes.drop_last());
        crc_shifts(c ^ ((bytes.last() as u32) << 24u32), 8)
    }
}

/// The Ogg page CRC of `bytes`.
pub fn ogg_crc(bytes: &[u8]) -> (res: u32)
    ensures
        res == ogg_crc_spec(bytes@),
{
    let mut crc = 0_u32;
    let mut i: usize = 0;
    while i < bytes.len()
        invariant
            0 <= i <= bytes@.len(),
            crc == ogg_crc_spec(bytes@.subrange(0, i as int)),
        decreases bytes@.len() - i,
    {
        let ghost prefix = bytes@.subrange(0, i as int + 1);
        assert(prefix.drop_last() =~= bytes@.subrange(0, i as int));
        crc ^= (bytes[i] as u32) << 24;
        let ghost start = crc;
        let mut k: u32 = 0;
        while k < 8
            invariant
                0 <= k <= 8,
                crc == crc_shifts(start, k as nat),
            decreases 8 - k,
        {
            crc = if crc & 0x8000_0000 != 0 {
                (crc << 1) ^ 0x04c1_1db7
            } else {
                crc << 1
            };
            k += 1;
        }
        i += 1;
    }
    assert(bytes@.subrange(0, bytes@.len() as int) =~= bytes@);
    crc
}

} // verus!

verus! {

/// A page as the stream model sees it: whether it continues a packet from
/// the previous page, the packets (or packet pieces) it carries, and whether
/// its last packet ends on this page.
pub struct PageModel {
    pub continued: bool,
    pub packets: Seq<Seq<u8>>,
    pub last_packet_complete: bool,
}

/// One parsed Ogg page.
pub struct OggPage {
    pub continued: bool,
    pub packets: Vec<Vec<u8>>,
    pub last_packet_complete: bool,
}

/// The byte contents of a list of buffers.
pub open spec fn byte_seqs(v: Seq<Vec<u8>>) -> Seq<Seq<u8>> {
    v.map_values(|p: Vec<u8>| p@)
}

impl View for OggPage {
    type V = PageModel;

    open spec fn view(&self) -> PageModel {
        PageModel {
            continued: self.continued,
            packets: byte_seqs(self.packets@),
            last_packet_complete: self.last_packet_complete,
        }
    }
}

/// The sum of the first `k` lacing values.
pub open spec fn lace_sum(laces: Seq<u8>, k: int) -> nat
    decreases k,
{
    if k <= 0 {
        0
    } else {
        lace_sum(laces, k - 1) + laces[k - 1] as nat
    }
}

/// Splitting a page payload by its lacing values: after the first `k`
/// laces, the packets completed, the packet in progress and the offset
/// reached. A lacing value below 255 ends a packet.
pub open spec fn lace_walk(laces: Seq<u8>, payload: Seq<u8>, k: int) -> (Seq<Seq<u8>>, Seq<u8>)
    decreases k,
{
    if k <= 0 {
        (seq![], seq![])
    } else {
        let (done, cur) = lace_walk(laces, payload, k - 1);
        let off = lace_sum(laces, k - 1) as int;
        let piece = cur + payload.subrange(off, off + laces[k - 1] as int);
        if laces[k - 1] < 255 {
            (done.push(piece), seq![])
        } else {
            (done, piece)
        }
    }
}

/// The packets of a page with lacing values `laces` and payload `payload`:
/// a packet still open at the end is kept as the last one, and the page's
/// last packet is complete unless its last lacing value is 255.
pub open spec fn page_packets(laces: Seq<u8>, payload: Seq<u8>) -> (Seq<Seq<u8>>, bool) {
    let (done, cur) = lace_walk(laces, payload, laces.len() as int);
    (
        if cur.len() > 0 {
            done.push(cur)
        } else {
            done
        },
        laces.len() == 0 || laces.last() < 255,
    )
}

/// Reads the page at the front of `input`: the page and its length, or why
/// it cannot be read.
pub open spec fn parse_page_spec(input: Seq<u8>) -> Result<(PageModel, int), OggError> {
    if input.len() < 27 {
        Err(OggError::PageHeaderTruncated)
    } else if input.subrange(0, 4) != ogg_capture() {
        Err(OggError::CaptureMissing)
    } else if input[4] != 0 {
        Err(OggError::UnsupportedVersion)
    } else {
        let table_end = 27 + input[26] as int;
        if input.len() < table_end {
            Err(OggError::SegmentTableTruncated)
        } else {
            let laces = input.subrange(27, table_end);
            let page_end = table_end + lace_sum(laces, laces.len() as int);
            if input.len() < page_end {
                Err(OggError::PayloadTruncated)
            } else {
                let (packets, complete) = page_packets(laces, input.subrange(table_end, page_end));
                Ok(
                    (
                        PageModel {
                            continued: input[5] & 1u8 != 0,
                            packets,
                            last_packet_complete: complete,
                        },
                        page_end,
                    ),
                )
            }
        }
    }
}

/// Splits a whole stream into pages, front to back.
pub open spec fn parse_pages_spec(input: Seq<u8>) -> Result<Seq<PageModel>, OggError>
    decreases input.len(),
{
    if input.len() == 0 {
        Ok(seq![])
    } else {
        match parse_page_spec(input) {
            Err(e) => Err(e),
            Ok((page, page_end)) => if 0 < page_end <= input.len() {
                match parse_pages_spec(input.subrange(page_end, input.len() as int)) {
                    Err(e) => Err(e),
                    Ok(rest) => Ok(seq![page] + rest),
                }
            } else {
                Err(OggError::PayloadTruncated)
            },
        }
    }
}

proof fn lemma_lace_sum_bound(laces: Seq<u8>, k: int)
    requires
        0 <= k <= laces.len(),
    ensures
        lace_sum(laces, k) <= 255 * k,
    decreases k,
{
    if k > 0 {
        lemma_lace_sum_bound(laces, k - 1);
    }
}

proof fn lemma_lace_sum_monotone(laces: Seq<u8>, j: int, k: int)
    requires
        0 <= j <= k <= laces.len(),
    ensures
        lace_sum(laces, j) <= lace_sum(laces, k),
    decreases k,
{
    if j < k {
        lemma_lace_sum_monotone(laces, j, k - 1);
    }
}

/// Splits the payload of one page into its packets.
fn split_laces(laces: &[u8], payload: &[u8]) -> (res: (Vec<Vec<u8>>, bool))
    requires
        payload@.len() == lace_sum(laces@, laces@.len() as int),
    ensures
        (byte_seqs(res.0@), res.1) == page_packets(laces@, payload@),
{
    let mut offset: usize = 0;
    let mut packets: Vec<Vec<u8>> = Vec::new();
    let mut packet: Vec<u8> = Vec::new();
    let mut last_packet_complete = true;
    let total = payload.len();
    let mut i: usize = 0;
    while i < laces.len()
        invariant
            0 <= i <= laces@.len(),
            total == payload@.len(),
            payload@.len() == lace_sum(laces@, laces@.len() as int),
            offset == lace_sum(laces@, i as int),
            (byte_seqs(packets@), packet@) == lace_walk(laces@, payload@, i as int),
            last_packet_complete == (i == 0 || laces@[i - 1] < 255),
        decreases laces@.len() - i,
    {
        proof {
            lemma_lace_sum_monotone(laces@, i as int + 1, laces@.len() as int);
            assert(lace_sum(laces@, i as int + 1) == lace_sum(laces@, i as int) + laces@[i as int]);
        }
        let lace = laces[i] as usize;
        packet.extend_from_slice(&payload[offset..offset + lace]);
        let ghost piece = packet@;
        proof {
            let (done, cur) = lace_walk(laces@, payload@, i as int);
            assert(piece =~= cur + payload@.subrange(offset as int, offset + lace));
        }
        offset += lace;
        last_packet_complete = lace < 255;
        if last_packet_complete {
            let ghost before = packets@;
            packets.push(packet);
            packet = Vec::new();
            proof {
                assert(byte_seqs(packets@) =~= byte_seqs(before).push(piece));
            }
        }
        i += 1;
        proof {
            let (done, cur) = lace_walk(laces@, payload@, i as int);
            assert(packet@ =~= cur);
        }
    }
    if packet.len() != 0 {
        let ghost before = packets@;
        let ghost cur = packet@;
        packets.push(packet);
        proof {
            assert(byte_seqs(packets@) =~= byte_seqs(before).push(cur));
        }
    }
    (packets, last_packet_complete)
}

} // verus!

verus! {

/// The models of parsed pages.
pub open spec fn page_models(v: Seq<OggPage>) -> Seq<PageModel> {
    v.map_values(|p: OggPage| p@)
}

/// `front` followed by whatever `rest` yields, or its error.
pub open spec fn prepend_pages(
    front: Seq<PageModel>,
    rest: Result<Seq<PageModel>, OggError>,
) -> Result<Seq<PageModel>, OggError> {
    match rest {
        Ok(r) => Ok(front + r),
        Err(e) => Err(e),
    }
}

/// The models of parsed pages, or the error.
pub open spec fn pages_result(res: Result<Vec<OggPage>, OggError>) -> Result<Seq<PageModel>, OggError> {
    match res {
        Ok(pages) => Ok(page_models(pages@)),
        Err(e) => Err(e),
    }
}

/// Sums the lacing values of a page.
fn sum_laces(laces: &[u8]) -> (res: usize)
    requires
        laces@.len() <= 255,
    ensures
        res == lace_sum(laces@, laces@.len() as int),
        res <= 255 * 255,
{
    let mut sum: usize = 0;
    let mut j: usize = 0;
    while j < laces.len()
        invariant
            0 <= j <= laces@.len() <= 255,
            sum == lace_sum(laces@, j as int),
        decreases laces@.len() - j,
    {
        proof {
            lemma_lace_sum_bound(laces@, j as int);
        }
        sum += laces[j] as usize;
        j += 1;
    }
    proof {
        lemma_lace_sum_bound(laces@, j as int);
    }
    sum
}

/// Splits a whole stream into Ogg pages, each split into the packets (or
/// packet pieces) its lacing values delimit.
pub fn parse_ogg_pages(input: &[u8]) -> (res: Result<Vec<OggPage>, OggError>)
    ensures
        pages_result(res) == parse_pages_spec(input@),
{
    let mut pages: Vec<OggPage> = Vec::new();
    let mut rest: &[u8] = input;
    let cap = ogg_capture_bytes();
    while rest.len() > 0
        invariant
            cap@ == ogg_capture(),
            parse_pages_spec(input@) == prepend_pages(page_models(pages@), parse_pages_spec(rest@)),
        decreases rest@.len(),
    {
        if rest.len() < 27 {
            return Err(OggError::PageHeaderTruncated);
        }
        if !starts_with(rest, &cap) {
            return Err(OggError::CaptureMissing);
        }
        if rest[4] != 0 {
            return Err(OggError::UnsupportedVersion);
        }
        let header_type = rest[5];
        let segment_table_end = 27 + rest[26] as usize;
        if rest.len() < segment_table_end {
            return Err(OggError::SegmentTableTruncated);
        }
        let laces = &rest[27..segment_table_end];
        let page_end = segment_table_end + sum_laces(laces);
        if rest.len() < page_end {
            return Err(OggError::PayloadTruncated);
        }
        let (packets, last_packet_complete) = split_laces(laces, &rest[segment_table_end..page_end]);
        let page = OggPage { continued: header_type & 0x01 != 0, packets, last_packet_complete };
        let ghost before = pages@;
        let ghost model = page@;
        pages.push(page);
        let ghost old_rest = rest@;
        rest = &rest[page_end..rest.len()];
        proof {
            assert(page_models(pages@) =~= page_models(before).push(model));
            assert(page_models(before).push(model) =~= page_models(before) + seq![model]);
            match parse_pages_spec(rest@) {
                Ok(r) => {
                    assert(page_models(before) + (seq![model] + r) =~= page_models(pages@) + r);
                },
                Err(e) => {},
            }
        }
    }
    proof {
        assert(page_models(pages@) + seq![] =~= page_models(pages@));
    }
    Ok(pages)
}

} // verus!

verus! {

/// The start of folding a page in: a continued page first completes (or
/// extends) the pending packet; the index of the page's first packet of its
/// own comes with the result.
pub open spec fn collect_open(
    packets: Seq<Seq<u8>>,
    pending: Seq<u8>,
    page: PageModel,
) -> Result<(Seq<Seq<u8>>, Seq<u8>, int), OggError> {
    if page.continued {
        if page.packets.len() == 0 {
            Err(OggError::ContinuedPageEmpty)
        } else if pending.len() == 0 {
            Err(OggError::ContinuationWithoutPrevious)
        } else {
            let joined = pending + page.packets[0];
            if page.packets.len() > 1 || page.last_packet_complete {
                Ok((packets.push(joined), seq![], 1))
            } else {
                Ok((packets, joined, 1))
            }
        }
    } else if pending.len() > 0 {
        Err(OggError::ContinuationMissing)
    } else {
        Ok((packets, pending, 0))
    }
}

/// The end of folding a page in: its own packets are added, and an
/// unfinished last packet becomes the pending one.
pub open spec fn collect_close(
    done: Seq<Seq<u8>>,
    pend: Seq<u8>,
    start: int,
    page: PageModel,
) -> Result<(Seq<Seq<u8>>, Seq<u8>), OggError> {
    let all = done + page.packets.subrange(start, page.packets.len() as int);
    if !page.last_packet_complete {
        if pend.len() == 0 {
            if all.len() == 0 {
                Err(OggError::IncompletePacketMissingData)
            } else {
                Ok((all.drop_last(), all.last()))
            }
        } else {
            Ok((all, pend))
        }
    } else if pend.len() > 0 {
        Err(OggError::ContinuationUnfinished)
    } else {
        Ok((all, pend))
    }
}

/// Folds one page into the packets collected so far and the packet still
/// pending across pages.
pub open spec fn collect_step(
    packets: Seq<Seq<u8>>,
    pending: Seq<u8>,
    page: PageModel,
) -> Result<(Seq<Seq<u8>>, Seq<u8>), OggError> {
    match collect_open(packets, pending, page) {
        Err(e) => Err(e),
        Ok((done, pend, start)) => collect_close(done, pend, start, page),
    }
}

/// Folds the first `k` pages.
pub open spec fn collect_fold(pages: Seq<PageModel>, k: int) -> Result<(Seq<Seq<u8>>, Seq<u8>), OggError>
    decreases k,
{
    if k <= 0 {
        Ok((seq![], seq![]))
    } else {
        match collect_fold(pages, k - 1) {
            Err(e) => Err(e),
            Ok((packets, pending)) => collect_step(packets, pending, pages[k - 1]),
        }
    }
}

/// The packets of a stream's pages, joined across page boundaries; the
/// stream may not end inside a packet.
pub open spec fn collect_spec(pages: Seq<PageModel>) -> Result<Seq<Seq<u8>>, OggError> {
    match collect_fold(pages, pages.len() as int) {
        Err(e) => Err(e),
        Ok((packets, pending)) => if pending.len() > 0 {
            Err(OggError::EndsInsideContinuedPacket)
        } else {
            Ok(packets)
        },
    }
}

/// Once the fold fails, it keeps failing with the same error.
proof fn lemma_fold_err_sticks(pages: Seq<PageModel>, j: int, k: int, e: OggError)
    requires
        0 <= j <= k,
        collect_fold(pages, j) == Err::<(Seq<Seq<u8>>, Seq<u8>), OggError>(e),
    ensures
        collect_fold(pages, k) == Err::<(Seq<Seq<u8>>, Seq<u8>), OggError>(e),
    decreases k - j,
{
    if j < k {
        lemma_fold_err_sticks(pages, j, k - 1, e);
    }
}

/// The contents of collected packets, or the error.
pub open spec fn packets_result(res: Result<Vec<Vec<u8>>, OggError>) -> Result<Seq<Seq<u8>>, OggError> {
    match res {
        Ok(p) => Ok(byte_seqs(p@)),
        Err(e) => Err(e),
    }
}

fn copy_bytes(v: &[u8]) -> (res: Vec<u8>)
    ensures
        res@ == v@,
{
    let mut out = Vec::new();
    out.extend_from_slice(v);
    assert(out@ =~= v@);
    out
}

/// Joins the packets of a stream's pages across page boundaries.
pub fn collect_packets(pages: &[OggPage]) -> (res: Result<Vec<Vec<u8>>, OggError>)
    ensures
        packets_result(res) == collect_spec(page_models(pages@)),
{
    let ghost models = page_models(pages@);
    let mut packets: Vec<Vec<u8>> = Vec::new();
    let mut pending: Vec<u8> = Vec::new();
    assert(byte_seqs(packets@) =~= seq![]);
    assert(pending@ =~= seq![]);
    let mut p: usize = 0;
    while p < pages.len()
        invariant
            0 <= p <= pages@.len(),
            models == page_models(pages@),
            collect_fold(models, p as int) == Ok::<(Seq<Seq<u8>>, Seq<u8>), OggError>(
                (byte_seqs(packets@), pending@),
            ),
        decreases pages@.len() - p,
    {
        let page = &pages[p];
        let ghost model = page@;
        let ghost packets0 = byte_seqs(packets@);
        let ghost pending0 = pending@;
        assert(models[p as int] == model);
        let mut start_index: usize = 0;
        if page.continued {
            if page.packets.len() == 0 {
                proof {
                lemma_fold_err_sticks(models, p as int + 1, models.len() as int, OggError::ContinuedPageEmpty);
            }
            return Err(OggError::ContinuedPageEmpty);
            }
            if pending.len() == 0 {
                proof {
                lemma_fold_err_sticks(models, p as int + 1, models.len() as int, OggError::ContinuationWithoutPrevious);
            }
            return Err(OggError::ContinuationWithoutPrevious);
            }
            pending.extend_from_slice(page.packets[0].as_slice());
            assert(pending@ =~= pending0 + model.packets[0]);
            start_index = 1;
            if page.packets.len() > 1 || page.last_packet_complete {
                let ghost before = packets@;
                let ghost joined = pending@;
                packets.push(pending);
                pending = Vec::new();
                proof {
                    assert(byte_seqs(packets@) =~= byte_seqs(before).push(joined));
                }
            }
            proof {
                assert(pending0 + model.packets[0] =~= pending0 + byte_seqs(page.packets@)[0]);
            }
        } else if pending.len() != 0 {
            proof {
                lemma_fold_err_sticks(models, p as int + 1, models.len() as int, OggError::ContinuationMissing);
            }
            return Err(OggError::ContinuationMissing);
        }
        let ghost done = byte_seqs(packets@);
        let ghost pend = pending@;
        assert(collect_open(packets0, pending0, model) == Ok::<(Seq<Seq<u8>>, Seq<u8>, int), OggError>(
            (done, pend, start_index as int),
        ));
        let mut q: usize = start_index;
        while q < page.packets.len()
            invariant
                start_index <= q <= page.packets@.len(),
                model == page@,
                byte_seqs(packets@) == done + model.packets.subrange(start_index as int, q as int),
            decreases page.packets@.len() - q,
        {
            let ghost before = packets@;
            let copy = copy_bytes(page.packets[q].as_slice());
            packets.push(copy);
            proof {
                assert(byte_seqs(packets@) =~= byte_seqs(before).push(model.packets[q as int]));
                assert(model.packets.subrange(start_index as int, q + 1) =~= model.packets.subrange(
                    start_index as int,
                    q as int,
                ).push(model.packets[q as int]));
            }
            q += 1;
        }
        if !page.last_packet_complete {
            if pending.len() == 0 {
                let ghost before = packets@;
                match packets.pop() {
                    None => {
                        proof {
                lemma_fold_err_sticks(models, p as int + 1, models.len() as int, OggError::IncompletePacketMissingData);
            }
            return Err(OggError::IncompletePacketMissingData);
                    },
                    Some(last) => {
                        proof {
                            assert(byte_seqs(packets@) =~= byte_seqs(before).drop_last());
                        }
                        pending = last;
                    },
                }
            }
        } else if pending.len() != 0 {
            proof {
                lemma_fold_err_sticks(models, p as int + 1, models.len() as int, OggError::ContinuationUnfinished);
            }
            return Err(OggError::ContinuationUnfinished);
        }
        proof {
            assert(collect_close(done, pend, start_index as int, model) == Ok::<(Seq<Seq<u8>>, Seq<u8>), OggError>(
                (byte_seqs(packets@), pending@),
            ));
        }
        p += 1;
    }
    if pending.len() != 0 {
        return Err(OggError::EndsInsideContinuedPacket);
    }
    Ok(packets)
}

} // verus!

verus! {

/// The fields of an `OpusHead` identification header the decoder needs.
#[derive(Debug, Clone, Copy, PartialEq, Eq, Structural)]
pub struct OpusHead {
    pub channels: u8,
    pub pre_skip: u16,
}

/// Reads an `OpusHead` packet: mono or stereo, channel mapping family 0.
pub open spec fn parse_opus_head_spec(packet: Seq<u8>) -> Result<OpusHead, OggError> {
    if !has_prefix(packet, opus_head_magic()) {
        Err(OggError::MissingOpusHead)
    } else if packet.len() < 19 {
        Err(OggError::OpusHeadTruncated)
    } else if packet[8] & 0xf0u8 != 0 {
        Err(OggError::UnsupportedOpusHeadVersion)
    } else if packet[9] != 1 && packet[9] != 2 {
        Err(OggError::UnsupportedChannelCount)
    } else if packet[18] != 0 {
        Err(OggError::UnsupportedMappingFamily)
    } else {
        Ok(OpusHead { channels: packet[9], pre_skip: (packet[10] + 256 * packet[11]) as u16 })
    }
}

/// Reads an `OpusHead` identification header: the channel count (1 or 2)
/// and the pre-skip (little-endian at bytes 10..12); the version's major
/// nibble must be zero and the channel mapping family 0.
pub fn parse_opus_head(packet: &[u8]) -> (res: Result<OpusHead, OggError>)
    ensures
        res == parse_opus_head_spec(packet@),
{
    let magic = opus_head_bytes();
    if !starts_with(packet, &magic) {
        return Err(OggError::MissingOpusHead);
    }
    if packet.len() < 19 {
        return Err(OggError::OpusHeadTruncated);
    }
    let version = packet[8];
    if version & 0xf0 != 0 {
        return Err(OggError::UnsupportedOpusHeadVersion);
    }
    let channels = packet[9];
    if channels != 1 && channels != 2 {
        return Err(OggError::UnsupportedChannelCount);
    }
    let pre_skip = packet[10] as u16 + 256 * packet[11] as u16;
    let mapping_family = packet[18];
    if mapping_family != 0 {
        return Err(OggError::UnsupportedMappingFamily);
    }
    Ok(OpusHead { channels, pre_skip })
}

/// An Ogg Opus stream's channel count, pre-skip and audio packets.
pub struct OggOpus {
    pub channels: u8,
    pub pre_skip: u16,
    pub audio_packets: Vec<Vec<u8>>,
}

/// Reads a whole Ogg Opus stream: its packets are the `OpusHead` header, the
/// `OpusTags` header, then the audio packets.
pub open spec fn parse_ogg_opus_spec(input: Seq<u8>) -> Result<(OpusHead, Seq<Seq<u8>>), OggError> {
    match parse_pages_spec(input) {
        Err(e) => Err(e),
        Ok(pages) => match collect_spec(pages) {
            Err(e) => Err(e),
            Ok(packets) => if packets.len() == 0 {
                Err(OggError::MissingOpusHead)
            } else {
                match parse_opus_head_spec(packets[0]) {
                    Err(e) => Err(e),
                    Ok(head) => if packets.len() < 2 || !has_prefix(packets[1], opus_tags_magic()) {
                        Err(OggError::MissingOpusTags)
                    } else {
                        Ok((head, packets.subrange(2, packets.len() as int)))
                    },
                }
            },
        },
    }
}

/// Reads a whole Ogg Opus stream into its header fields and audio packets.
pub fn parse_ogg_opus(input: &[u8]) -> (res: Result<OggOpus, OggError>)
    ensures
        match res {
            Ok(ogg) => parse_ogg_opus_spec(input@) == Ok::<(OpusHead, Seq<Seq<u8>>), OggError>(
                (
                    OpusHead { channels: ogg.channels, pre_skip: ogg.pre_skip },
                    byte_seqs(ogg.audio_packets@),
                ),
            ),
            Err(e) => parse_ogg_opus_spec(input@) == Err::<(OpusHead, Seq<Seq<u8>>), OggError>(e),
        },
{
    let pages = match parse_ogg_pages(input) {
        Ok(p) => p,
        Err(e) => {
            return Err(e);
        },
    };
    let mut packets = match collect_packets(pages.as_slice()) {
        Ok(p) => p,
        Err(e) => {
            return Err(e);
        },
    };
    if packets.len() == 0 {
        return Err(OggError::MissingOpusHead);
    }
    let head = match parse_opus_head(packets[0].as_slice()) {
        Ok(h) => h,
        Err(e) => {
            return Err(e);
        },
    };
    let tags_magic = opus_tags_bytes();
    if packets.len() < 2 || !starts_with(packets[1].as_slice(), &tags_magic) {
        return Err(OggError::MissingOpusTags);
    }
    let ghost all = packets@;
    let audio_packets = packets.split_off(2);
    proof {
        assert(byte_seqs(audio_packets@) =~= byte_seqs(all).subrange(2, all.len() as int));
    }
    Ok(OggOpus { channels: head.channels, pre_skip: head.pre_skip, audio_packets })
}

/// A prefix of an Ogg Opus stream that more bytes could still complete: a
/// piece of the capture pattern, or pages before the `OpusHead` magic has
/// arrived that are cut short or carry no whole packet yet.
pub open spec fn incomplete_prefix_spec(input: Seq<u8>) -> bool {
    if has_prefix(ogg_capture(), input) {
        true
    } else if !has_prefix(input, ogg_capture()) || occurs_in(input, opus_head_magic()) {
        false
    } else {
        match parse_pages_spec(input) {
            Err(e) => e.incomplete(),
            Ok(pages) => match collect_spec(pages) {
                Ok(packets) => packets.len() == 0,
                Err(e) => e.incomplete(),
            },
        }
    }
}

/// Whether `input` looks like the start of an Ogg Opus stream that has not
/// fully arrived.
pub fn looks_like_incomplete_ogg_opus_prefix(input: &[u8]) -> (res: bool)
    ensures
        res == incomplete_prefix_spec(input@),
{
    let cap = ogg_capture_bytes();
    if starts_with(&cap, input) {
        return true;
    }
    let magic = opus_head_bytes();
    if !starts_with(input, &cap) || contains(input, &magic) {
        return false;
    }
    match parse_ogg_pages(input) {
        Err(e) => e.is_incomplete(),
        Ok(pages) => match collect_packets(pages.as_slice()) {
            Ok(packets) => packets.len() == 0,
            Err(e) => e.is_incomplete(),
        },
    }
}

/// The stream side of an Opus decoder: the bytes buffered until a whole
/// stream has arrived.
pub struct OpusDecoder {
    pending: Vec<u8>,
}

impl View for OpusDecoder {
    type V = Seq<u8>;

    closed spec fn view(&self) -> Seq<u8> {
        self.pending@
    }
}

impl OpusDecoder {
    /// A decoder with nothing buffered.
    pub fn new() -> (res: Self)
        ensures
            res@ == Seq::<u8>::empty(),
    {
        OpusDecoder { pending: Vec::new() }
    }

    /// The bytes buffered so far.
    pub fn pending(&self) -> (res: &[u8])
        ensures
            res@ == self@,
    {
        self.pending.as_slice()
    }

    /// Takes in the next chunk of a stream and says whether the buffered
    /// bytes should be decoded now: not for an empty chunk with nothing
    /// buffered, nor while they look like an incomplete Ogg Opus prefix.
    pub fn push_chunk(&mut self, chunk: &[u8]) -> (ready: bool)
        ensures
            chunk@.len() == 0 && old(self)@.len() == 0 ==> final(self)@ == old(self)@ && !ready,
            !(chunk@.len() == 0 && old(self)@.len() == 0) ==> final(self)@ == old(self)@ + chunk@
                && ready == !incomplete_prefix_spec(final(self)@),
    {
        if chunk.len() == 0 && self.pending.len() == 0 {
            return false;
        }
        let ghost before = self.pending@;
        self.pending.extend_from_slice(chunk);
        assert(self.pending@ =~= before + chunk@);
        !looks_like_incomplete_ogg_opus_prefix(self.pending.as_slice())
    }

    /// Drops the buffered bytes once they have been decoded.
    pub fn clear(&mut self)
        ensures
            final(self)@ == Seq::<u8>::empty(),
    {
        self.pending = Vec::new();
    }
}

/// The encoder side of the Opus codec; it keeps no state between streams.
pub struct OpusEncoder;

impl OpusEncoder {
    pub fn new() -> (res: Self) {
        OpusEncoder
    }
}

} // verus!

verus! {

/// The serial number of the single logical stream this muxer writes.
pub const OGG_OPUS_SERIAL: u32 = 0x5343_4f50;

/// The `n` little-endian bytes of `x`.
pub open spec fn le_bytes(x: nat, n: nat) -> Seq<u8>
    decreases n,
{
    if n == 0 {
        seq![]
    } else {
        le_bytes(x, (n - 1) as nat).push(((x / pow2((8 * (n - 1)) as nat)) % 256) as u8)
    }
}

/// Appends the `n` low little-endian bytes of `x`.
fn push_le(out: &mut Vec<u8>, x: u64, n: usize)
    requires
        n <= 8,
    ensures
        final(out)@ == old(out)@ + le_bytes(x as nat, n as nat),
{
    let ghost start = out@;
    let mut v = x;
    let mut i: usize = 0;
    proof {
        lemma2_to64();
        assert(start + le_bytes(x as nat, 0) =~= start);
        assert(x as nat / pow2(0) == x as nat);
    }
    while i < n
        invariant
            0 <= i <= n <= 8,
            v == x as nat / pow2((8 * i) as nat),
            out@ == start + le_bytes(x as nat, i as nat),
        decreases n - i,
    {
        out.push((v % 256) as u8);
        proof {
            assert(out@ =~= start + le_bytes(x as nat, (i + 1) as nat));
            lemma_pow2_pos((8 * i) as nat);
            lemma_pow2_adds((8 * i) as nat, 8);
            crate::bits::lemma_floor_div_div(x as int, pow2((8 * i) as nat) as int, 256);
            assert((8 * (i + 1)) as nat == (8 * i) as nat + 8);
            lemma2_to64();
            assert(v / 256 == x as nat / pow2((8 * (i + 1)) as nat));
        }
        v = v / 256;
        i += 1;
    }
}

/// The lacing values of one packet of `len` bytes: 255 for each full
/// segment, then the remainder (zero when `len` is a multiple of 255).
pub open spec fn laces_of(len: nat) -> Seq<u8>
    decreases len,
{
    if len >= 255 {
        seq![255u8] + laces_of((len - 255) as nat)
    } else {
        seq![len as u8]
    }
}

/// The lacing values of a page carrying `packets`.
pub open spec fn packets_laces(packets: Seq<Seq<u8>>) -> Seq<u8>
    decreases packets.len(),
{
    if packets.len() == 0 {
        seq![]
    } else {
        packets_laces(packets.drop_last()) + laces_of(packets.last().len())
    }
}

/// The payload of a page carrying `packets`.
pub open spec fn packets_payload(packets: Seq<Seq<u8>>) -> Seq<u8>
    decreases packets.len(),
{
    if packets.len() == 0 {
        seq![]
    } else {
        packets_payload(packets.drop_last()) + packets.last()
    }
}

/// The fixed part of a page header, up to its CRC field.
pub open spec fn page_head(header_type: u8, granule: u64, sequence: u32) -> Seq<u8> {
    ogg_capture() + seq![0u8, header_type] + le_bytes(granule as nat, 8) + le_bytes(
        OGG_OPUS_SERIAL as nat,
        4,
    ) + le_bytes(sequence as nat, 4)
}

/// The part of a page after its CRC field.
pub open spec fn page_tail(laces: Seq<u8>, payload: Seq<u8>) -> Seq<u8> {
    seq![laces.len() as u8] + laces + payload
}

/// The page carrying `packets`, its CRC computed over the page with a zero
/// CRC field.
#[verifier::opaque]
pub open spec fn ogg_page_bytes(
    packets: Seq<Seq<u8>>,
    header_type: u8,
    granule: u64,
    sequence: u32,
) -> Seq<u8> {
    let head = page_head(header_type, granule, sequence);
    let tail = page_tail(packets_laces(packets), packets_payload(packets));
    head + le_bytes(ogg_crc_spec(head + le_bytes(0, 4) + tail) as nat, 4) + tail
}

proof fn lemma_laces_of_len(len: nat)
    ensures
        laces_of(len).len() == len / 255 + 1,
    decreases len,
{
    if len >= 255 {
        lemma_laces_of_len((len - 255) as nat);
    }
}

/// Appends one page carrying `packets` to `stream`, with the next sequence
/// number.
pub fn push_ogg_page(
    stream: &mut Vec<u8>,
    packets: &[Vec<u8>],
    header_type: u8,
    granule_position: u64,
    sequence: &mut u32,
)
    requires
        packets_laces(byte_seqs(packets@)).len() <= 255,
        *old(sequence) < u32::MAX,
    ensures
        final(stream)@ == old(stream)@ + ogg_page_bytes(
            byte_seqs(packets@),
            header_type,
            granule_position,
            *old(sequence),
        ),
        *final(sequence) == *old(sequence) + 1,
{
    let ghost all = byte_seqs(packets@);
    let mut laces: Vec<u8> = Vec::new();
    let mut payload: Vec<u8> = Vec::new();
    let mut p: usize = 0;
    while p < packets.len()
        invariant
            0 <= p <= packets@.len(),
            all == byte_seqs(packets@),
            laces@ == packets_laces(all.subrange(0, p as int)),
            payload@ == packets_payload(all.subrange(0, p as int)),
        decreases packets@.len() - p,
    {
        let ghost base = laces@;
        let ghost len = packets@[p as int]@.len();
        let mut remaining = packets[p].len();
        while remaining >= 255
            invariant
                base + laces_of(len) == laces@ + laces_of(remaining as nat),
            decreases remaining,
        {
            let ghost before = laces@;
            laces.push(255);
            proof {
                assert(before + laces_of(remaining as nat) =~= laces@ + laces_of((remaining - 255) as nat));
            }
            remaining -= 255;
        }
        laces.push(remaining as u8);
        let ghost before_payload = payload@;
        payload.extend_from_slice(packets[p].as_slice());
        proof {
            let pre = all.subrange(0, p as int + 1);
            assert(pre.drop_last() =~= all.subrange(0, p as int));
            assert(pre.last() == packets@[p as int]@);
            assert(laces@ =~= base + laces_of(len));
            assert(payload@ =~= before_payload + packets@[p as int]@);
        }
        p += 1;
    }
    proof {
        assert(all.subrange(0, packets@.len() as int) =~= all);
    }
    let mut head: Vec<u8> = Vec::new();
    let cap = ogg_capture_bytes();
    head.extend_from_slice(&cap);
    head.push(0);
    head.push(header_type);
    push_le(&mut head, granule_position, 8);
    push_le(&mut head, OGG_OPUS_SERIAL as u64, 4);
    push_le(&mut head, *sequence as u64, 4);
    let mut tail: Vec<u8> = Vec::new();
    tail.push(laces.len() as u8);
    tail.extend_from_slice(laces.as_slice());
    tail.extend_from_slice(payload.as_slice());
    let mut unsigned: Vec<u8> = Vec::new();
    unsigned.extend_from_slice(head.as_slice());
    push_le(&mut unsigned, 0, 4);
    unsigned.extend_from_slice(tail.as_slice());
    let crc = ogg_crc(unsigned.as_slice());
    let ghost s0 = stream@;
    stream.extend_from_slice(head.as_slice());
    push_le(stream, crc as u64, 4);
    stream.extend_from_slice(tail.as_slice());
    proof {
        reveal(ogg_page_bytes);
        assert(head@ =~= page_head(header_type, granule_position, *old(sequence)));
        assert(tail@ =~= page_tail(laces@, payload@));
        assert(unsigned@ =~= head@ + le_bytes(0, 4) + tail@);
        assert(stream@ =~= s0 + (head@ + le_bytes(crc as nat, 4) + tail@));
    }
    *sequence += 1;
}

} // verus!

verus! {

/// Samples per channel in each audio packet the muxer writes (20 ms at
/// 48 kHz), which the granule position counts.
pub const OPUS_FRAME_SIZE: u64 = 960;

/// The pre-skip the muxer announces: the CELT decoder's delay at 48 kHz.
pub const OPUS_CELT_PRE_SKIP: u16 = 120;

/// The vendor string of the `OpusTags` header, `sonare-codec`.
pub open spec fn vendor_string() -> Seq<u8> {
    seq![0x73u8, 0x6fu8, 0x6eu8, 0x61u8, 0x72u8, 0x65u8, 0x2du8, 0x63u8, 0x6fu8, 0x64u8, 0x65u8, 0x63u8]
}

/// The `OpusHead` packet the muxer writes: version 1, the channel count,
/// the pre-skip, 48 kHz input, zero gain, mapping family 0.
pub open spec fn opus_head_packet(channels: u8) -> Seq<u8> {
    opus_head_magic() + seq![1u8, channels] + le_bytes(OPUS_CELT_PRE_SKIP as nat, 2) + le_bytes(
        48000,
        4,
    ) + le_bytes(0, 2) + seq![0u8]
}

/// The `OpusTags` packet the muxer writes: the vendor string and no comments.
pub open spec fn opus_tags_packet() -> Seq<u8> {
    opus_tags_magic() + le_bytes(vendor_string().len(), 4) + vendor_string() + le_bytes(0, 4)
}

/// The pages of the first `k` audio packets, one packet per page: the
/// granule position counts the samples up to the page's end, the last page
/// of the stream carries the end-of-stream flag.
pub open spec fn audio_pages(packets: Seq<Seq<u8>>, k: int) -> Seq<u8>
    decreases k,
{
    if k <= 0 {
        seq![]
    } else {
        audio_pages(packets, k - 1) + ogg_page_bytes(
            seq![packets[k - 1]],
            if k == packets.len() {
                4u8
            } else {
                0u8
            },
            (960 * k) as u64,
            (k + 1) as u32,
        )
    }
}

/// The Ogg Opus stream of `packets`: a page with the `OpusHead` packet
/// (beginning of stream), a page with the `OpusTags` packet, then one page
/// per audio packet.
pub open spec fn mux_spec(channels: u8, packets: Seq<Seq<u8>>) -> Seq<u8> {
    ogg_page_bytes(seq![opus_head_packet(channels)], 2, 0, 0) + ogg_page_bytes(
        seq![opus_tags_packet()],
        0,
        0,
        1,
    ) + audio_pages(packets, packets.len() as int)
}

proof fn lemma_single_packet_laces(p: Seq<u8>)
    requires
        p.len() <= 65024,
    ensures
        packets_laces(seq![p]).len() <= 255,
{
    lemma_laces_of_len(p.len());
    assert(seq![p].drop_last() =~= Seq::<Seq<u8>>::empty());
    assert(seq![p].last() == p);
    assert(packets_laces(Seq::<Seq<u8>>::empty()) =~= Seq::<u8>::empty());
    assert(packets_laces(seq![p]) =~= Seq::<u8>::empty() + laces_of(p.len()));
}

proof fn lemma_le_bytes_len(x: nat, n: nat)
    ensures
        le_bytes(x, n).len() == n,
    decreases n,
{
    if n > 0 {
        lemma_le_bytes_len(x, (n - 1) as nat);
    }
}

/// Writes an Ogg Opus stream: the `OpusHead` and `OpusTags` headers, then one
/// page per audio packet.
pub fn mux_ogg_opus(channels: u16, audio_packets: Vec<Vec<u8>>) -> (res: Vec<u8>)
    requires
        channels <= 255,
        audio_packets@.len() + 2 <= u32::MAX,
        forall|i: int| 0 <= i < audio_packets@.len() ==> #[trigger] audio_packets@[i]@.len() <= 65024,
    ensures
        res@ == mux_spec(channels as u8, byte_seqs(audio_packets@)),
{
    let ghost packets = byte_seqs(audio_packets@);
    let mut stream: Vec<u8> = Vec::new();
    let mut sequence = 0_u32;
    let channels = channels as u8;

    let mut head: Vec<u8> = Vec::new();
    let head_magic = opus_head_bytes();
    head.extend_from_slice(&head_magic);
    head.push(1);
    head.push(channels);
    push_le(&mut head, OPUS_CELT_PRE_SKIP as u64, 2);
    push_le(&mut head, 48_000, 4);
    push_le(&mut head, 0, 2);
    head.push(0);
    proof {
        assert(head@ =~= opus_head_packet(channels));
        lemma_le_bytes_len(OPUS_CELT_PRE_SKIP as nat, 2);
        lemma_le_bytes_len(48000, 4);
        lemma_le_bytes_len(0, 2);
        lemma_single_packet_laces(head@);
    }
    let head_page = vec![head];
    proof {
        assert(byte_seqs(head_page@) =~= seq![opus_head_packet(channels)]);
    }
    push_ogg_page(&mut stream, head_page.as_slice(), 0x02, 0, &mut sequence);

    let vendor: [u8; 12] = [0x73, 0x6f, 0x6e, 0x61, 0x72, 0x65, 0x2d, 0x63, 0x6f, 0x64, 0x65, 0x63];
    let mut tags: Vec<u8> = Vec::new();
    let tags_magic = opus_tags_bytes();
    tags.extend_from_slice(&tags_magic);
    push_le(&mut tags, vendor.len() as u64, 4);
    tags.extend_from_slice(&vendor);
    push_le(&mut tags, 0, 4);
    proof {
        assert(vendor@ =~= vendor_string());
        assert(tags@ =~= opus_tags_packet());
        lemma_le_bytes_len(12, 4);
        lemma_le_bytes_len(0, 4);
        lemma_single_packet_laces(tags@);
    }
    let tags_page = vec![tags];
    proof {
        assert(byte_seqs(tags_page@) =~= seq![opus_tags_packet()]);
    }
    push_ogg_page(&mut stream, tags_page.as_slice(), 0x00, 0, &mut sequence);
    let ghost headers = stream@;

    let mut granule_position = 0_u64;
    let packet_count = audio_packets.len();
    let mut index: usize = 0;
    while index < packet_count
        invariant
            0 <= index <= packet_count,
            packet_count == audio_packets@.len(),
            packets == byte_seqs(audio_packets@),
            packet_count + 2 <= u32::MAX,
            forall|i: int| 0 <= i < audio_packets@.len() ==> #[trigger] audio_packets@[i]@.len() <= 65024,
            granule_position == 960 * index,
            sequence == index + 2,
            stream@ == headers + audio_pages(packets, index as int),
        decreases packet_count - index,
    {
        granule_position += OPUS_FRAME_SIZE;
        let header_type: u8 = if index + 1 == packet_count {
            0x04
        } else {
            0x00
        };
        let page = &audio_packets[index..index + 1];
        proof {
            assert(byte_seqs(page@) =~= seq![packets[index as int]]);
            lemma_single_packet_laces(packets[index as int]);
        }
        push_ogg_page(&mut stream, page, header_type, granule_position, &mut sequence);
        proof {
            assert(stream@ =~= headers + audio_pages(packets, index as int + 1));
        }
        index += 1;
    }
    proof {
        assert(stream@ =~= mux_spec(channels, packets));
    }
    stream
}

} // verus!

verus! {

proof fn lemma_laces_of_shape(len: nat)
    ensures
        laces_of(len).len() == len / 255 + 1,
        forall|i: int| 0 <= i < len / 255 ==> #[trigger] laces_of(len)[i] == 255,
        laces_of(len)[(len / 255) as int] == len % 255,
    decreases len,
{
    if len >= 255 {
        let rest = (len - 255) as nat;
        lemma_laces_of_shape(rest);
        assert(rest / 255 + 1 == len / 255);
        assert(rest % 255 == len % 255);
        assert forall|i: int| 0 <= i < len / 255 implies #[trigger] laces_of(len)[i] == 255 by {
            if i > 0 {
                assert(laces_of(len)[i] == laces_of(rest)[i - 1]);
            }
        }
    }
}

proof fn lemma_lace_sum_full(laces: Seq<u8>, k: int)
    requires
        0 <= k <= laces.len(),
        forall|i: int| 0 <= i < k ==> #[trigger] laces[i] == 255,
    ensures
        lace_sum(laces, k) == 255 * k,
    decreases k,
{
    if k > 0 {
        lemma_lace_sum_full(laces, k - 1);
    }
}

proof fn lemma_lace_walk_full(laces: Seq<u8>, p: Seq<u8>, k: int)
    requires
        0 <= k <= laces.len(),
        255 * k <= p.len(),
        forall|i: int| 0 <= i < k ==> #[trigger] laces[i] == 255,
    ensures
        lace_walk(laces, p, k) == (Seq::<Seq<u8>>::empty(), p.subrange(0, 255 * k)),
    decreases k,
{
    if k > 0 {
        lemma_lace_walk_full(laces, p, k - 1);
        lemma_lace_sum_full(laces, k - 1);
        assert(p.subrange(0, 255 * (k - 1)) + p.subrange(255 * (k - 1), 255 * (k - 1) + 255) =~= p.subrange(0, 255 * k));
    } else {
        assert(p.subrange(0, 0) =~= Seq::<u8>::empty());
    }
}

/// The lacing of a single packet splits the page payload back into exactly
/// that packet, complete on this page.
proof fn lemma_single_packet_split(p: Seq<u8>)
    ensures
        page_packets(laces_of(p.len()), p) == (seq![p], true),
        lace_sum(laces_of(p.len()), laces_of(p.len()).len() as int) == p.len(),
{
    let len = p.len();
    let laces = laces_of(len);
    lemma_laces_of_shape(len);
    let n = laces.len() as int;
    lemma_lace_walk_full(laces, p, n - 1);
    lemma_lace_sum_full(laces, n - 1);
    assert(lace_sum(laces, n) == 255 * (n - 1) + len % 255);
    assert(255 * (n - 1) + len % 255 == len);
    assert(p.subrange(0, 255 * (n - 1)) + p.subrange(255 * (n - 1), 255 * (n - 1) + laces[n - 1] as int) =~= p);
    let (done, cur) = lace_walk(laces, p, n);
    assert(done =~= seq![p]);
    assert(cur =~= Seq::<u8>::empty());
}

proof fn lemma_packets_of_single(p: Seq<u8>)
    ensures
        packets_laces(seq![p]) == laces_of(p.len()),
        packets_payload(seq![p]) == p,
{
    assert(seq![p].drop_last() =~= Seq::<Seq<u8>>::empty());
    assert(seq![p].last() == p);
    assert(packets_laces(Seq::<Seq<u8>>::empty()) =~= Seq::<u8>::empty());
    assert(packets_payload(Seq::<Seq<u8>>::empty()) =~= Seq::<u8>::empty());
    assert(packets_laces(seq![p]) =~= Seq::<u8>::empty() + laces_of(p.len()));
    assert(packets_payload(seq![p]) =~= Seq::<u8>::empty() + p);
}

} // verus!

verus! {

/// The model of the page the muxer writes for one packet.
pub open spec fn single_packet_page(p: Seq<u8>, header_type: u8) -> PageModel {
    PageModel { continued: header_type & 1u8 != 0, packets: seq![p], last_packet_complete: true }
}

/// A written page of one packet reads back as that packet, complete, and the
/// reader moves past exactly the page.
proof fn lemma_page_reads_back(p: Seq<u8>, header_type: u8, granule: u64, sequence: u32, rest: Seq<u8>)
    requires
        p.len() <= 65024,
    ensures
        parse_page_spec(ogg_page_bytes(seq![p], header_type, granule, sequence) + rest) == Ok::<(PageModel, int), OggError>(
            (single_packet_page(p, header_type), ogg_page_bytes(seq![p], header_type, granule, sequence).len() as int),
        ),
        ogg_page_bytes(seq![p], header_type, granule, sequence).len() > 0,
{
    reveal(ogg_page_bytes);
    lemma_packets_of_single(p);
    lemma_single_packet_split(p);
    lemma_laces_of_len(p.len());
    let laces = laces_of(p.len());
    let n = laces.len() as int;
    let head = page_head(header_type, granule, sequence);
    let tail = page_tail(laces, p);
    let crc = ogg_crc_spec(head + le_bytes(0, 4) + tail);
    let page = head + le_bytes(crc as nat, 4) + tail;
    assert(page == ogg_page_bytes(seq![p], header_type, granule, sequence));
    lemma_le_bytes_len(granule as nat, 8);
    lemma_le_bytes_len(OGG_OPUS_SERIAL as nat, 4);
    lemma_le_bytes_len(sequence as nat, 4);
    lemma_le_bytes_len(crc as nat, 4);
    assert(head.len() == 22);
    let input = page + rest;
    assert(input.subrange(0, 4) =~= ogg_capture());
    assert(input[4] == 0);
    assert(input[5] == header_type);
    assert(input[26] == n as u8);
    assert(n <= 255);
    assert(input.subrange(27, 27 + n) =~= laces);
    assert(input.subrange(27 + n, 27 + n + p.len()) =~= p);
    assert(page.len() == 27 + n + p.len());
}

/// The audio pages from the `k`-th packet on, front to back.
pub open spec fn audio_pages_from(packets: Seq<Seq<u8>>, k: int) -> Seq<u8>
    decreases packets.len() - k,
{
    if k < 0 || k >= packets.len() {
        seq![]
    } else {
        ogg_page_bytes(
            seq![packets[k]],
            if k + 1 == packets.len() {
                4u8
            } else {
                0u8
            },
            (960 * (k + 1)) as u64,
            (k + 2) as u32,
        ) + audio_pages_from(packets, k + 1)
    }
}

proof fn lemma_audio_pages_split(packets: Seq<Seq<u8>>, k: int)
    requires
        0 <= k <= packets.len(),
    ensures
        audio_pages(packets, k) + audio_pages_from(packets, k) == audio_pages_from(packets, 0),
    decreases k,
{
    if k > 0 {
        lemma_audio_pages_split(packets, k - 1);
        assert(audio_pages(packets, k - 1) + audio_pages_from(packets, k - 1) =~= audio_pages(packets, k)
            + audio_pages_from(packets, k));
    } else {
        assert(audio_pages(packets, 0) + audio_pages_from(packets, 0) =~= audio_pages_from(packets, 0));
    }
}

/// The page models of the audio pages from the `k`-th on.
pub open spec fn audio_models_from(packets: Seq<Seq<u8>>, k: int) -> Seq<PageModel> {
    Seq::new(
        (packets.len() - k) as nat,
        |i: int| PageModel { continued: false, packets: seq![packets[k + i]], last_packet_complete: true },
    )
}

proof fn lemma_audio_pages_read_back(packets: Seq<Seq<u8>>, k: int)
    requires
        0 <= k <= packets.len(),
        packets.len() + 2 <= u32::MAX,
        forall|i: int| 0 <= i < packets.len() ==> #[trigger] packets[i].len() <= 65024,
    ensures
        parse_pages_spec(audio_pages_from(packets, k)) == Ok::<Seq<PageModel>, OggError>(
            audio_models_from(packets, k),
        ),
    decreases packets.len() - k,
{
    if k == packets.len() {
        assert(audio_models_from(packets, k) =~= Seq::<PageModel>::empty());
    } else {
        lemma_audio_pages_read_back(packets, k + 1);
        let ht: u8 = if k + 1 == packets.len() {
            4u8
        } else {
            0u8
        };
        assert(ht & 1u8 == 0u8) by (bit_vector)
            requires
                ht == 0u8 || ht == 4u8,
        ;
        let page = ogg_page_bytes(seq![packets[k]], ht, (960 * (k + 1)) as u64, (k + 2) as u32);
        let rest = audio_pages_from(packets, k + 1);
        lemma_page_reads_back(packets[k], ht, (960 * (k + 1)) as u64, (k + 2) as u32, rest);
        assert((page + rest).subrange(page.len() as int, (page + rest).len() as int) =~= rest);
        assert(audio_models_from(packets, k) =~= seq![single_packet_page(packets[k], ht)]
            + audio_models_from(packets, k + 1));
    }
}

} // verus!

verus! {

/// Pages that each carry one whole packet and continue nothing.
pub open spec fn simple_pages(pages: Seq<PageModel>) -> bool {
    forall|i: int|
        0 <= i < pages.len() ==> !(#[trigger] pages[i]).continued && pages[i].packets.len() == 1
            && pages[i].last_packet_complete
}

proof fn lemma_collect_fold_simple(pages: Seq<PageModel>, k: int)
    requires
        0 <= k <= pages.len(),
        simple_pages(pages),
    ensures
        collect_fold(pages, k) == Ok::<(Seq<Seq<u8>>, Seq<u8>), OggError>(
            (Seq::new(k as nat, |i: int| pages[i].packets[0]), Seq::<u8>::empty()),
        ),
    decreases k,
{
    if k > 0 {
        lemma_collect_fold_simple(pages, k - 1);
        let prev = Seq::new((k - 1) as nat, |i: int| pages[i].packets[0]);
        let page = pages[k - 1];
        assert(page.packets.subrange(0, page.packets.len() as int) =~= seq![page.packets[0]]);
        assert(prev + seq![page.packets[0]] =~= Seq::new(k as nat, |i: int| pages[i].packets[0]));
    } else {
        assert(Seq::new(0, |i: int| pages[i].packets[0]) =~= Seq::<Seq<u8>>::empty());
    }
}

proof fn lemma_head_packet_parses(channels: u8)
    requires
        channels == 1 || channels == 2,
    ensures
        parse_opus_head_spec(opus_head_packet(channels)) == Ok::<OpusHead, OggError>(
            OpusHead { channels, pre_skip: OPUS_CELT_PRE_SKIP },
        ),
        opus_head_packet(channels).len() == 19,
{
    let p = opus_head_packet(channels);
    lemma_le_bytes_len(OPUS_CELT_PRE_SKIP as nat, 2);
    lemma_le_bytes_len(48000, 4);
    lemma_le_bytes_len(0, 2);
    lemma2_to64();
    assert(le_bytes(OPUS_CELT_PRE_SKIP as nat, 2) =~= seq![120u8, 0u8]) by {
        assert(le_bytes(OPUS_CELT_PRE_SKIP as nat, 1) =~= seq![120u8]);
    }
    assert(p.subrange(0, 8) =~= opus_head_magic());
    assert(p[8] == 1u8);
    assert(1u8 & 0xf0u8 == 0u8) by (bit_vector);
    assert(p[10] == 120u8 && p[11] == 0u8);
}

/// The pages of a written stream: the header pages, then one page per
/// audio packet, each carrying one whole packet.
proof fn lemma_stream_pages(channels: u8, packets: Seq<Seq<u8>>)
    requires
        channels == 1 || channels == 2,
        packets.len() + 2 <= u32::MAX,
        forall|i: int| 0 <= i < packets.len() ==> #[trigger] packets[i].len() <= 65024,
    ensures
        parse_pages_spec(mux_spec(channels, packets)) == Ok::<Seq<PageModel>, OggError>(
            seq![single_packet_page(opus_head_packet(channels), 2)] + (seq![
                single_packet_page(opus_tags_packet(), 0),
            ] + audio_models_from(packets, 0)),
        ),
{
    let head = opus_head_packet(channels);
    let tags = opus_tags_packet();
    lemma_le_bytes_len(OPUS_CELT_PRE_SKIP as nat, 2);
    lemma_le_bytes_len(48000, 4);
    lemma_le_bytes_len(0, 2);
    lemma_le_bytes_len(12, 4);
    lemma_le_bytes_len(0, 4);
    assert(head.len() == 19);
    assert(tags.len() == 28);
    let p0 = ogg_page_bytes(seq![head], 2, 0, 0);
    let p1 = ogg_page_bytes(seq![tags], 0, 0, 1);
    let audio = audio_pages_from(packets, 0);
    lemma_audio_pages_split(packets, packets.len() as int);
    assert(audio_pages(packets, packets.len() as int) =~= audio);
    assert(mux_spec(channels, packets) =~= p0 + (p1 + audio));
    let rest_models = audio_models_from(packets, 0);
    lemma_audio_pages_read_back(packets, 0);
    lemma_pages_cons(tags, 0, 0, 1, audio, rest_models);
    lemma_pages_cons(head, 2, 0, 0, p1 + audio, seq![single_packet_page(tags, 0)] + rest_models);
}

/// Reading a written one-packet page in front of pages that read as
/// `models` gives its model in front of them.
proof fn lemma_pages_cons(p: Seq<u8>, header_type: u8, granule: u64, sequence: u32, rest: Seq<u8>, models: Seq<PageModel>)
    requires
        p.len() <= 65024,
        parse_pages_spec(rest) == Ok::<Seq<PageModel>, OggError>(models),
    ensures
        parse_pages_spec(ogg_page_bytes(seq![p], header_type, granule, sequence) + rest) == Ok::<Seq<PageModel>, OggError>(
            seq![single_packet_page(p, header_type)] + models,
        ),
{
    let page = ogg_page_bytes(seq![p], header_type, granule, sequence);
    lemma_page_reads_back(p, header_type, granule, sequence, rest);
    assert((page + rest).subrange(page.len() as int, (page + rest).len() as int) =~= rest);
}

/// Writing an Ogg Opus stream and reading it back gives the channel count,
/// the pre-skip and every audio packet unchanged.
pub proof fn lemma_mux_parse_round_trip(channels: u8, packets: Seq<Seq<u8>>)
    requires
        channels == 1 || channels == 2,
        packets.len() + 2 <= u32::MAX,
        forall|i: int| 0 <= i < packets.len() ==> #[trigger] packets[i].len() <= 65024,
    ensures
        parse_ogg_opus_spec(mux_spec(channels, packets)) == Ok::<(OpusHead, Seq<Seq<u8>>), OggError>(
            (OpusHead { channels, pre_skip: OPUS_CELT_PRE_SKIP }, packets),
        ),
{
    let head = opus_head_packet(channels);
    let tags = opus_tags_packet();
    lemma_head_packet_parses(channels);
    lemma_stream_pages(channels, packets);
    assert(2u8 & 1u8 == 0u8 && 0u8 & 1u8 == 0u8) by (bit_vector);
    let m0 = single_packet_page(head, 2);
    let m1 = single_packet_page(tags, 0);
    let models = seq![m0] + (seq![m1] + audio_models_from(packets, 0));
    assert(simple_pages(models)) by {
        assert forall|i: int| 0 <= i < models.len() implies !(#[trigger] models[i]).continued
            && models[i].packets.len() == 1 && models[i].last_packet_complete by {
            if i >= 2 {
                assert(models[i] == audio_models_from(packets, 0)[i - 2]);
            }
        }
    }
    lemma_collect_fold_simple(models, models.len() as int);
    let collected = Seq::new(models.len(), |i: int| models[i].packets[0]);
    assert(collect_spec(models) == Ok::<Seq<Seq<u8>>, OggError>(collected));
    assert(collected[0] == head);
    assert(collected[1] == tags);
    lemma_le_bytes_len(12, 4);
    assert(tags.subrange(0, 8) =~= opus_tags_magic());
    assert(collected.subrange(2, collected.len() as int) =~= packets);
}

} // verus!
