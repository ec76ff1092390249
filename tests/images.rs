use decentralearn::pdf::{extract_page_images, ImageFilter, PdfDocument, PdfObject, PdfStream};

fn name(s: &str) -> Vec<u8> {
    s.as_bytes().to_vec()
}

fn image_stream(width: Option<i64>, height: Option<i64>, filter: Option<&str>, content: Vec<u8>) -> PdfObject {
    let mut dict = Vec::new();
    if let Some(w) = width {
        dict.push((name("Width"), PdfObject::Integer(w)));
    }
    if let Some(h) = height {
        dict.push((name("Height"), PdfObject::Integer(h)));
    }
    if let Some(f) = filter {
        dict.push((name("Filter"), PdfObject::Name(name(f))));
    }
    PdfObject::Stream(PdfStream { dict, content })
}

/// One page (object 1) whose XObject dictionary maps each name to the
/// stream objects numbered from 10 on.
fn one_page_doc(streams: Vec<(&str, PdfObject)>) -> PdfDocument {
    let mut xobjects = Vec::new();
    let mut objects = Vec::new();
    for (i, (n, s)) in streams.into_iter().enumerate() {
        let id = (10 + i as u32, 0u16);
        xobjects.push((name(n), PdfObject::Reference(id)));
        objects.push((id, s));
    }
    let resources = vec![(name("XObject"), PdfObject::Dictionary(xobjects))];
    let page = vec![
        (name("Type"), PdfObject::Name(name("Page"))),
        (name("Resources"), PdfObject::Dictionary(resources)),
    ];
    objects.push(((1, 0), PdfObject::Dictionary(page)));
    PdfDocument { objects, pages: vec![(1, (1, 0))] }
}

fn jpeg_bytes() -> Vec<u8> {
    let img = image::DynamicImage::ImageRgb8(image::RgbImage::from_pixel(2, 2, image::Rgb([200, 10, 10])));
    let mut out = std::io::Cursor::new(Vec::new());
    img.write_to(&mut out, image::ImageFormat::Jpeg).unwrap();
    out.into_inner()
}

#[test]
fn zero_width_xobject_is_skipped() {
    let doc = one_page_doc(vec![("Im0", image_stream(Some(0), Some(4), Some("FlateDecode"), vec![]))]);
    assert!(extract_page_images(&doc).is_empty());
}

#[test]
fn absent_size_is_skipped() {
    let doc = one_page_doc(vec![("Im0", image_stream(None, Some(1), Some("FlateDecode"), vec![0; 4]))]);
    assert!(extract_page_images(&doc).is_empty());
}

#[test]
fn flate_with_exact_length_is_decoded() {
    let doc = one_page_doc(vec![("Im0", image_stream(Some(2), Some(1), Some("FlateDecode"), vec![1, 2, 3, 4, 5, 6, 7, 8]))]);
    let imgs = extract_page_images(&doc);
    assert_eq!(imgs.len(), 1);
    assert_eq!(imgs[0].page, 1);
    assert_eq!(imgs[0].name, name("Im0"));
    assert_eq!((imgs[0].width, imgs[0].height), (2, 1));
    assert_eq!(imgs[0].image.width(), 2);
    assert_eq!(imgs[0].image.to_rgba8().into_raw(), vec![1, 2, 3, 4, 5, 6, 7, 8]);
}

#[test]
fn flate_with_wrong_length_is_skipped() {
    let short = one_page_doc(vec![("Im0", image_stream(Some(2), Some(1), Some("FlateDecode"), vec![0; 7]))]);
    assert!(extract_page_images(&short).is_empty());
    let long = one_page_doc(vec![("Im0", image_stream(Some(2), Some(1), Some("FlateDecode"), vec![0; 9]))]);
    assert!(extract_page_images(&long).is_empty());
}

#[test]
fn dct_decodes_jpeg_and_skips_garbage() {
    let doc = one_page_doc(vec![
        ("Bad", image_stream(Some(2), Some(2), Some("DCTDecode"), vec![1, 2, 3])),
        ("Good", image_stream(Some(2), Some(2), Some("DCTDecode"), jpeg_bytes())),
    ]);
    let imgs = extract_page_images(&doc);
    assert_eq!(imgs.len(), 1);
    assert_eq!(imgs[0].name, name("Good"));
    assert_eq!(imgs[0].image.width(), 2);
    assert_eq!(imgs[0].image.height(), 2);
}

#[test]
fn unsupported_filter_is_skipped() {
    let doc = one_page_doc(vec![
        ("A", image_stream(Some(1), Some(1), Some("JBIG2Decode"), vec![0; 4])),
        ("B", image_stream(Some(1), Some(1), None, vec![0; 4])),
    ]);
    assert!(extract_page_images(&doc).is_empty());
}

#[test]
fn negative_width_truncates_to_u32() {
    let stream = PdfStream { dict: vec![(name("Width"), PdfObject::Integer(-1)), (name("Height"), PdfObject::Integer(4294967296))], content: vec![] };
    assert_eq!(stream.declared_size(), (u32::MAX, 0));
    assert_eq!(stream.filter(), ImageFilter::Unsupported);
    assert!(stream.decode().is_none());
}

#[test]
fn images_keep_page_then_entry_order() {
    let px = |w: i64| image_stream(Some(w), Some(1), Some("FlateDecode"), vec![9; 4 * w as usize]);
    let mut doc = one_page_doc(vec![("X", px(1)), ("Y", px(2))]);
    let second_page = vec![(
        name("Resources"),
        PdfObject::Dictionary(vec![(name("XObject"), PdfObject::Dictionary(vec![(name("Z"), PdfObject::Reference((11, 0)))]))]),
    )];
    doc.objects.push(((2, 0), PdfObject::Dictionary(second_page)));
    doc.pages.push((2, (2, 0)));
    let got: Vec<(u32, Vec<u8>, u32)> = extract_page_images(&doc).into_iter().map(|i| (i.page, i.name, i.width)).collect();
    assert_eq!(got, vec![(1, name("X"), 1), (1, name("Y"), 2), (2, name("Z"), 2)]);
}

#[test]
fn pages_without_direct_resources_yield_nothing() {
    let page = vec![(name("Resources"), PdfObject::Reference((5, 0)))];
    let doc = PdfDocument { objects: vec![((1, 0), PdfObject::Dictionary(page))], pages: vec![(1, (1, 0)), (2, (9, 0))] };
    assert!(extract_page_images(&doc).is_empty());
}

#[test]
fn reference_chains_are_followed() {
    let px = image_stream(Some(1), Some(1), Some("FlateDecode"), vec![7; 4]);
    let mut doc = one_page_doc(vec![("Im0", PdfObject::Reference((20, 0)))]);
    doc.objects.push(((20, 0), PdfObject::Reference((21, 0))));
    doc.objects.push(((21, 0), px));
    let imgs = extract_page_images(&doc);
    assert_eq!(imgs.len(), 1);
    assert_eq!(imgs[0].name, name("Im0"));
}

#[test]
fn page_object_behind_reference_is_followed() {
    let mut doc = one_page_doc(vec![("Im0", image_stream(Some(1), Some(1), Some("FlateDecode"), vec![7; 4]))]);
    doc.objects.push(((3, 0), PdfObject::Reference((1, 0))));
    doc.pages = vec![(1, (3, 0))];
    assert_eq!(extract_page_images(&doc).len(), 1);
}

#[test]
fn overlong_or_broken_chains_yield_nothing() {
    let mut doc = one_page_doc(vec![("Im0", PdfObject::Reference((100, 0)))]);
    for i in 0..129u32 {
        doc.objects.push(((100 + i, 0), PdfObject::Reference((101 + i, 0))));
    }
    doc.objects.push(((229, 0), image_stream(Some(1), Some(1), Some("FlateDecode"), vec![7; 4])));
    assert!(extract_page_images(&doc).is_empty());
    assert!(doc.get_object((100, 0)).is_none());
    assert!(doc.get_object((101, 0)).is_some());
    let broken = one_page_doc(vec![("Im0", PdfObject::Reference((50, 0)))]);
    assert!(extract_page_images(&broken).is_empty());
}
