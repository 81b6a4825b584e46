use vstd::prelude::*;

use crate::error::PngDbError;

verus! {

/// The size of a container and its named compressed text entries, in the order they
/// were stored; an entry whose text could not be recovered holds the reason.
#[derive(Debug)]
pub struct ContainerText {
    pub width: u32,
    pub height: u32,
    pub entries: Vec<(String, Result<String, String>)>,
}

/// The bytes of the 8-bit RGB image of the given size with the given zTXt entries and
/// pixel data, or `None` where the encoder refuses them.
pub uninterp spec fn png_image_of(
    width: u32,
    height: u32,
    entries: Seq<(Seq<char>, Seq<char>)>,
    pixels: Seq<u8>,
) -> Option<Seq<u8>>;

/// The size and the zTXt entries that stand before the image data (keyword, recovered
/// text) of the image `bytes`, or `None` where the decoder refuses its header.
pub uninterp spec fn png_contents_of(bytes: Seq<u8>) -> Option<
    (u32, u32, Seq<(Seq<char>, Option<Seq<char>>)>),
>;

/// Whether no keyword holds a NUL character.
pub open spec fn keywords_without_nul(entries: Seq<(String, String)>) -> bool {
    forall|i: int, j: int|
        0 <= i < entries.len() && 0 <= j < entries[i].0@.len() ==> #[trigger] entries[i].0@[j]
            != '\0'
}

/// The entries as the decoder gives them back: each text recovered.
pub open spec fn texts_as_read(entries: Seq<(String, String)>) -> Seq<(Seq<char>, Option<Seq<char>>)> {
    entries.map_values(|e: (String, String)| (e.0@, Some(e.1@)))
}

pub open spec fn texts_view(entries: Seq<(String, String)>) -> Seq<(Seq<char>, Seq<char>)> {
    entries.map_values(|e: (String, String)| (e.0@, e.1@))
}

pub open spec fn read_texts_view(entries: Seq<(String, Result<String, String>)>) -> Seq<
    (Seq<char>, Option<Seq<char>>),
> {
    entries.map_values(
        |e: (String, Result<String, String>)|
            (
                e.0@,
                match e.1 {
                    Ok(t) => Some(t@),
                    Err(_) => None,
                },
            ),
    )
}

/// All-zero pixel data: three bytes per pixel.
pub open spec fn blank_pixels_spec(width: u32, height: u32) -> Seq<u8> {
    Seq::new((3 * width * height) as nat, |i: int| 0u8)
}

/// Relies on png's `Encoder` (8-bit RGB, `add_ztxt_chunk` for each entry in order,
/// `write_header`, `write_image_data`, `finish`): whether it succeeds and the bytes it
/// writes depend on the arguments alone; it writes the zTXt chunks, in order, before
/// the image data, and its decoder reads them back as Latin-1, as written.
#[verifier::external_body]
fn encode_png(width: u32, height: u32, entries: &Vec<(String, String)>, pixels: &Vec<u8>) -> (r:
    Result<Vec<u8>, String>)
    requires
        3 * width * height <= usize::MAX,
    ensures
        r is Ok <==> png_image_of(width, height, texts_view(entries@), pixels@) is Some,
        r matches Ok(b) ==> png_image_of(width, height, texts_view(entries@), pixels@) == Some(
            b@,
        ),
        r matches Ok(b) ==> (keywords_without_nul(entries@) && png_contents_of(b@) is Some
            ==> png_contents_of(b@) == Some((width, height, texts_as_read(entries@)))),
{
    let mut buf: Vec<u8> = Vec::new();
    let mut encoder = png::Encoder::new(&mut buf, width, height);
    encoder.set_color(png::ColorType::Rgb);
    encoder.set_depth(png::BitDepth::Eight);
    for (keyword, text) in entries.iter() {
        encoder.add_ztxt_chunk(keyword.clone(), text.clone()).map_err(|e| e.to_string())?;
    }
    let mut writer = encoder.write_header().map_err(|e| e.to_string())?;
    writer.write_image_data(pixels).map_err(|e| e.to_string())?;
    writer.finish().map_err(|e| e.to_string())?;
    Ok(buf)
}

/// Relies on png's `Decoder::read_info` for the size and the zTXt chunks of an image,
/// and on `ZTXtChunk::get_text` for the text of each: both depend on the bytes alone.
#[verifier::external_body]
fn decode_png(bytes: &[u8]) -> (r: Result<ContainerText, String>)
    ensures
        r is Ok <==> png_contents_of(bytes@) is Some,
        r matches Ok(c) ==> png_contents_of(bytes@) == Some(
            (c.width, c.height, read_texts_view(c.entries@)),
        ),
{
    let reader = png::Decoder::new(std::io::Cursor::new(bytes)).read_info().map_err(|e| e.to_string())?;
    let info = reader.info();
    let entries = info.compressed_latin1_text.iter().map(
        |c| (c.keyword.clone(), c.get_text().map_err(|e| e.to_string())),
    ).collect();
    Ok(ContainerText { width: info.width, height: info.height, entries })
}

/// The placeholder pixel data of a `width` by `height` image, where its length fits.
pub fn blank_pixels(width: u32, height: u32) -> (r: Option<Vec<u8>>)
    ensures
        r matches Some(p) ==> p@ == blank_pixels_spec(width, height),
        r is None <==> 3 * width * height > usize::MAX,
{
    let n = match (width as usize).checked_mul(height as usize) {
        Some(wh) => match wh.checked_mul(3) {
            Some(n) => n,
            None => {
                assert(3 * width * height > usize::MAX) by (nonlinear_arith)
                    requires
                        wh == width * height,
                        wh * 3 > usize::MAX,
                ;
                return None;
            },
        },
        None => {
            assert(3 * width * height > usize::MAX) by (nonlinear_arith)
                requires
                    width * height > usize::MAX,
            ;
            return None;
        },
    };
    let mut p: Vec<u8> = Vec::new();
    let mut i: usize = 0;
    while i < n
        invariant
            i <= n,
            p@ == Seq::new(i as nat, |j: int| 0u8),
        decreases n - i,
    {
        p.push(0u8);
        i = i + 1;
        assert(p@ =~= Seq::new(i as nat, |j: int| 0u8));
    }
    assert(n == 3 * width * height) by (nonlinear_arith)
        requires
            n == (width * height) * 3,
    ;
    Some(p)
}

/// Writes a container of the given size that holds `entries` as compressed text and
/// all-zero pixel data.
pub fn write_container(width: u32, height: u32, entries: &Vec<(String, String)>) -> (r: Result<
    Vec<u8>,
    PngDbError,
>)
    ensures
        r is Ok <==> 3 * width * height <= usize::MAX && png_image_of(
            width,
            height,
            texts_view(entries@),
            blank_pixels_spec(width, height),
        ) is Some,
        r matches Ok(b) ==> png_image_of(
            width,
            height,
            texts_view(entries@),
            blank_pixels_spec(width, height),
        ) == Some(b@),
        r matches Ok(b) ==> (keywords_without_nul(entries@) && png_contents_of(b@) is Some
            ==> png_contents_of(b@) == Some((width, height, texts_as_read(entries@)))),
        r matches Err(e) ==> e is ContainerFormat,
{
    match blank_pixels(width, height) {
        None => {
            let reason = vec![
                'i', 'm', 'a', 'g', 'e', ' ', 't', 'o', 'o', ' ', 'l', 'a', 'r', 'g', 'e',
            ];
            Err(PngDbError::ContainerFormat(crate::text::string_of(reason.as_slice())))
        },
        Some(pixels) => match encode_png(width, height, entries, &pixels) {
            Ok(b) => Ok(b),
            Err(m) => Err(PngDbError::ContainerFormat(m)),
        },
    }
}

/// Reads the size and the compressed text entries of a container.
pub fn read_container(bytes: &[u8]) -> (r: Result<ContainerText, PngDbError>)
    ensures
        r is Ok <==> png_contents_of(bytes@) is Some,
        r matches Ok(c) ==> png_contents_of(bytes@) == Some(
            (c.width, c.height, read_texts_view(c.entries@)),
        ),
        r matches Err(e) ==> e is ContainerFormat,
{
    match decode_png(bytes) {
        Ok(c) => Ok(c),
        Err(m) => Err(PngDbError::ContainerFormat(m)),
    }
}

} // verus!
