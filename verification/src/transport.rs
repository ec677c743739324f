//! Packing the rendered pages for the document: every page is compressed,
//! encoded as text and wrapped in the script that unpacks it in the browser
//! and hands it to the images of its class.

use std::io::Read;
use vstd::prelude::*;
use vstd::string::StringExecFns;
use crate::text::{decimal, push_decimal};

verus! {

/// The text that the crate `base64` encodes bytes as, with its standard
/// alphabet and padding.
pub uninterp spec fn base64_text(bytes: Seq<u8>) -> Seq<char>;

/// An error of reading and writing.
#[verifier::external_type_specification]
#[verifier::external_body]
pub struct ExIoError(std::io::Error);

/// `encode` of the crate `base64`: the bytes as text. What the text is has
/// the name [`base64_text`]; nothing more is claimed of it.
#[verifier::external_body]
pub(crate) fn encode_base64(bytes: &[u8]) -> (text: String)
    ensures
        text@ == base64_text(bytes@),
{
    base64::encode(bytes)
}

/// The encoder of the crate `xz2` for the older of its two formats, with
/// the options of the preset `preset`: reads the bytes through
/// `XzEncoder::new_stream` over a stream of `Stream::new_lzma_encoder` and
/// returns what comes out, or the error of the encoder. Nothing is claimed
/// of either.
#[verifier::external_body]
pub(crate) fn compress(bytes: &[u8], preset: u32) -> (packed: Result<Vec<u8>, std::io::Error>) {
    let options = xz2::stream::LzmaOptions::new_preset(preset)?;
    let stream = xz2::stream::Stream::new_lzma_encoder(&options)?;
    let mut packed = Vec::new();
    xz2::read::XzEncoder::new_stream(bytes, stream).read_to_end(&mut packed)?;
    Ok(packed)
}

/// The eight bytes of a number, the most significant first.
pub open spec fn be_bytes(n: u64) -> Seq<u8> {
    seq![
        ((n / 0x100_0000_0000_0000) % 0x100) as u8,
        ((n / 0x1_0000_0000_0000) % 0x100) as u8,
        ((n / 0x100_0000_0000) % 0x100) as u8,
        ((n / 0x1_0000_0000) % 0x100) as u8,
        ((n / 0x100_0000) % 0x100) as u8,
        ((n / 0x1_0000) % 0x100) as u8,
        ((n / 0x100) % 0x100) as u8,
        (n % 0x100) as u8,
    ]
}

/// The class of the images of a page whose bytes have the hash `hash`:
/// `jl-` and the hash as text.
pub open spec fn class_name_spec(hash: u64) -> Seq<char> {
    "jl-"@ + base64_text(be_bytes(hash))
}

/// The class that the images of a page carry, and by which the script of
/// the page finds them. It is made of a hash of the page, so that pages of
/// different documents that are shown together do not take each other's
/// images.
pub fn class_name(hash: u64) -> (name: String)
    ensures
        name@ == class_name_spec(hash),
{
    let mut bytes: Vec<u8> = Vec::new();
    bytes.push(((hash / 0x100_0000_0000_0000) % 0x100) as u8);
    bytes.push(((hash / 0x1_0000_0000_0000) % 0x100) as u8);
    bytes.push(((hash / 0x100_0000_0000) % 0x100) as u8);
    bytes.push(((hash / 0x1_0000_0000) % 0x100) as u8);
    bytes.push(((hash / 0x100_0000) % 0x100) as u8);
    bytes.push(((hash / 0x1_0000) % 0x100) as u8);
    bytes.push(((hash / 0x100) % 0x100) as u8);
    bytes.push((hash % 0x100) as u8);
    assert(bytes@ =~= be_bytes(hash));
    let mut name = String::from_str("jl-");
    name.append(encode_base64(bytes.as_slice()).as_str());
    name
}

/// The preset that pages are compressed with: the strongest.
pub const PRESET: u32 = 9;

/// What becomes of a page once the encoder has had it: what the encoder
/// wrote is encoded as text, and the error of the encoder is handed on as
/// it is.
pub fn packed_text(compressed: Result<Vec<u8>, std::io::Error>) -> (packed: Result<
    String,
    std::io::Error,
>)
    ensures
        match compressed {
            Ok(bytes) => packed matches Ok(text) && text@ == base64_text(bytes@),
            Err(e) => packed matches Err(handed) && handed == e,
        },
{
    match compressed {
        Ok(bytes) => Ok(encode_base64(bytes.as_slice())),
        Err(e) => Err(e),
    }
}

/// A page packed for transport: compressed with the preset [`PRESET`] and
/// encoded as text. Whether the encoder takes the page is for the encoder
/// to say; what is made of its answer is what [`packed_text`] says.
pub fn pack(page: &[u8]) -> (packed: Result<String, std::io::Error>)
    ensures
        packed matches Ok(text) ==> exists|bytes: Seq<u8>| text@ == #[trigger] base64_text(bytes),
{
    packed_text(compress(page, PRESET))
}

/// The first lines of the script of a page: the page is unpacked.
pub open spec fn unpack_text(page: nat, packed: Seq<char>) -> Seq<char> {
    "console.time(\"decompress_"@ + decimal(page) + "\");\nLZMA.decompress(Uint8Array.from(atob(\""@
        + packed
        + "\"), function(c) { return c.charCodeAt(0); }),\n    function(result, error) {\n        console.timeEnd(\"decompress_"@
        + decimal(page) + "\");\n"@
}

/// The last lines of the script of a page: the unpacked page is handed to
/// the images of its class.
pub open spec fn hand_over_text(class_name: Seq<char>) -> Seq<char> {
    "        var svgUrl = URL.createObjectURL(new Blob([result], {type: \"image/svg+xml\"}));\n        var imgs = document.getElementsByClassName(\""@
        + class_name
        + "\");\n        for (var i = 0; i < imgs.length; i++) {\n            var hashPos = imgs[i].src.indexOf(\"#\");\n            if (hashPos != -1)\n                imgs[i].src = svgUrl + imgs[i].src.substring(hashPos);\n        }\n    },\n    function(p) {}\n);\n"@
}

/// The script of the page numbered `page`, packed as `packed`, whose
/// images carry the class `class_name`.
pub open spec fn decompress_script_spec(
    page: nat,
    packed: Seq<char>,
    class_name: Seq<char>,
) -> Seq<char> {
    unpack_text(page, packed) + hand_over_text(class_name)
}

/// The script that unpacks the page numbered `page` in the browser and
/// hands it to the images of its class.
pub fn decompress_script(page: usize, packed: &str, class_name: &str) -> (script: String)
    ensures
        script@ == decompress_script_spec(page as nat, packed@, class_name@),
{
    let mut script = String::from_str("console.time(\"decompress_");
    push_decimal(&mut script, page as u128);
    script.append("\");\nLZMA.decompress(Uint8Array.from(atob(\"");
    script.append(packed);
    script.append(
        "\"), function(c) { return c.charCodeAt(0); }),\n    function(result, error) {\n        console.timeEnd(\"decompress_",
    );
    push_decimal(&mut script, page as u128);
    script.append("\");\n");
    assert(script@ =~= unpack_text(page as nat, packed@));
    script.append(
        "        var svgUrl = URL.createObjectURL(new Blob([result], {type: \"image/svg+xml\"}));\n        var imgs = document.getElementsByClassName(\"",
    );
    script.append(class_name);
    script.append(
        "\");\n        for (var i = 0; i < imgs.length; i++) {\n            var hashPos = imgs[i].src.indexOf(\"#\");\n            if (hashPos != -1)\n                imgs[i].src = svgUrl + imgs[i].src.substring(hashPos);\n        }\n    },\n    function(p) {}\n);\n",
    );
    assert(script@ =~= decompress_script_spec(page as nat, packed@, class_name@));
    script
}

/// What the last node of the document holds: the script that unpacks, with
/// whatever attributes it is given, and the scripts of the pages.
pub open spec fn final_code_spec(
    lzma_js_path: Seq<char>,
    attributes: Seq<char>,
    scripts: Seq<char>,
) -> Seq<char> {
    "<script src=\""@ + lzma_js_path + "\" "@ + attributes + "></script><script>"@ + scripts
        + "</script>"@
}

/// The markup of the last node of the document.
pub fn final_code(lzma_js_path: &str, attributes: &str, scripts: &str) -> (code: String)
    ensures
        code@ == final_code_spec(lzma_js_path@, attributes@, scripts@),
{
    let mut code = String::from_str("<script src=\"");
    code.append(lzma_js_path);
    code.append("\" ");
    code.append(attributes);
    code.append("></script><script>");
    code.append(scripts);
    code.append("</script>");
    assert(code@ =~= final_code_spec(lzma_js_path@, attributes@, scripts@));
    code
}

} // verus!
