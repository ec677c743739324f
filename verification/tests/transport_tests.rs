use std::io::Read;

use justlatex::transport::{class_name, decompress_script, final_code, pack, packed_text};

#[test]
fn class_names_are_made_of_the_hash() {
    assert_eq!(class_name(0), "jl-AAAAAAAAAAA=");
    assert_eq!(class_name(0x0102_0304_0506_0708), "jl-AQIDBAUGBwg=");
    assert_eq!(class_name(u64::MAX), "jl-//////////8=");
    assert_eq!(class_name(0xfb00_0000_0000_003e), "jl-+wAAAAAAAD4=");
}

#[test]
fn packed_pages_unpack_to_themselves() {
    let page = b"<svg><path d=\"M0 0L10 10\"/><path d=\"M0 0L10 10\"/></svg>".repeat(20);
    let text = pack(&page).unwrap();
    let bytes = base64::decode(&text).unwrap();
    assert!(bytes.len() < page.len());
    let stream = xz2::stream::Stream::new_lzma_decoder(u64::MAX).unwrap();
    let mut unpacked = vec![];
    xz2::read::XzDecoder::new_stream(&bytes[..], stream).read_to_end(&mut unpacked).unwrap();
    assert_eq!(unpacked, page);
    assert_eq!(pack(b"").unwrap(), pack(b"").unwrap());
}

#[test]
fn script_of_a_page() {
    assert_eq!(
        decompress_script(12, "QUJD", "jl-x"),
        "console.time(\"decompress_12\");\n\
         LZMA.decompress(Uint8Array.from(atob(\"QUJD\"), function(c) { return c.charCodeAt(0); }),\n\
         \x20   function(result, error) {\n\
         \x20       console.timeEnd(\"decompress_12\");\n\
         \x20       var svgUrl = URL.createObjectURL(new Blob([result], {type: \"image/svg+xml\"}));\n\
         \x20       var imgs = document.getElementsByClassName(\"jl-x\");\n\
         \x20       for (var i = 0; i < imgs.length; i++) {\n\
         \x20           var hashPos = imgs[i].src.indexOf(\"#\");\n\
         \x20           if (hashPos != -1)\n\
         \x20               imgs[i].src = svgUrl + imgs[i].src.substring(hashPos);\n\
         \x20       }\n\
         \x20   },\n\
         \x20   function(p) {}\n\
         );\n"
    );
}

#[test]
fn code_of_the_last_node() {
    assert_eq!(
        final_code("lzma.js", "data-pjax", "a();b();"),
        "<script src=\"lzma.js\" data-pjax></script><script>a();b();</script>"
    );
    assert_eq!(final_code("", "", ""), "<script src=\"\" ></script><script></script>");
}

#[test]
fn answer_of_the_encoder_is_encoded_or_handed_on() {
    assert_eq!(packed_text(Ok(vec![1, 2, 3, 4, 5, 6, 7, 8])).unwrap(), "AQIDBAUGBwg=");
    assert_eq!(packed_text(Ok(vec![])).unwrap(), "");
    assert_eq!(packed_text(Ok(b"ABC".to_vec())).unwrap(), "QUJD");
    let refused = std::io::Error::new(std::io::ErrorKind::InvalidInput, "refused");
    let handed = packed_text(Err(refused)).unwrap_err();
    assert_eq!(handed.kind(), std::io::ErrorKind::InvalidInput);
    assert_eq!(handed.to_string(), "refused");
}
