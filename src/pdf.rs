//! A PDF's object graph held as plain values (an arena of objects by id and
//! the page list), and the discovery and decoding of the image streams that
//! each page's resources name.

use vstd::prelude::*;

verus! {

#[verifier::external_type_specification]
#[verifier::external_body]
pub struct ExDynamicImage(image::DynamicImage);

/// An object id: object number and generation.
pub type ObjectId = (u32, u16);

/// The entries of a dictionary, in the document's order.
pub type PdfDict = Vec<(Vec<u8>, PdfObject)>;

/// A parsed PDF object, keeping what image discovery reads.
pub enum PdfObject {
    Integer(i64),
    Name(Vec<u8>),
    Dictionary(PdfDict),
    Stream(PdfStream),
    Reference(ObjectId),
    /// Any other kind of object (null, boolean, real, string, array).
    Other,
}

/// A stream object: its dictionary and its content bytes as stored.
pub struct PdfStream {
    pub dict: PdfDict,
    pub content: Vec<u8>,
}

/// A parsed document: every object by id, and the pages in document order as
/// (page number, page object id).
pub struct PdfDocument {
    pub objects: Vec<(ObjectId, PdfObject)>,
    pub pages: Vec<(u32, ObjectId)>,
}

/// The compression filters that image decoding supports.
#[derive(Debug, Clone, Copy, PartialEq, Eq, Structural)]
pub enum ImageFilter {
    /// `DCTDecode`: the bytes are a compressed image file (JPEG).
    Dct,
    /// `FlateDecode`: the bytes are taken as raw RGBA pixels.
    Flate,
    /// Anything else, or no filter at all.
    Unsupported,
}

/// An image decoded from the XObject `name` of page `page`, with its
/// declared size.
pub struct PageImage {
    pub page: u32,
    pub name: Vec<u8>,
    pub width: u32,
    pub height: u32,
    pub image: image::DynamicImage,
}

impl PageImage {
    /// Page, XObject name, width and height.
    pub open spec fn record(&self) -> (u32, Seq<u8>, u32, u32) {
        (self.page, self.name@, self.width, self.height)
    }
}

/// Whether the image crate decodes the bytes in the built-in format that
/// their leading bytes name.
pub uninterp spec fn decodes_as_image(data: Seq<u8>) -> bool;

/// Relies on `image::guess_format`, which names a built-in format from the
/// leading bytes, and `image::load_from_memory_with_format`, which decodes in
/// that format. Neither consults the crate's registered hooks, so the outcome
/// depends on the bytes alone.
#[verifier::external_body]
fn load_image(data: &[u8]) -> (r: Option<image::DynamicImage>)
    ensures
        r is Some == decodes_as_image(data@),
{
    match image::guess_format(data) {
        Ok(format) => image::load_from_memory_with_format(data, format).ok(),
        Err(_) => None,
    }
}

/// Relies on `image::ImageBuffer::<Rgba<u8>, Vec<u8>>::from_raw`: for a
/// non-zero width and height it succeeds exactly when `4 * width * height`
/// fits in `usize` (its checked products `4 * width`, then `* height`, do not
/// overflow) and the buffer holds at least that many bytes.
#[verifier::external_body]
fn rgba_image(width: u32, height: u32, data: Vec<u8>) -> (r: Option<image::DynamicImage>)
    requires
        width > 0,
        height > 0,
    ensures
        r is Some <==> (4 * width * height <= usize::MAX && 4 * width * height <= data@.len()),
{
    image::ImageBuffer::<image::Rgba<u8>, Vec<u8>>::from_raw(width, height, data).map(
        image::DynamicImage::ImageRgba8,
    )
}

/// The value of the first entry under `key`, searching from entry `i`.
pub open spec fn dict_get(d: Seq<(Vec<u8>, PdfObject)>, key: Seq<u8>, i: int) -> Option<PdfObject>
    decreases d.len() - i,
{
    if i < 0 || i >= d.len() {
        None
    } else if d[i].0@ == key {
        Some(d[i].1)
    } else {
        dict_get(d, key, i + 1)
    }
}

/// The first object with id `id`, searching from place `i`.
pub open spec fn object_get(objs: Seq<(ObjectId, PdfObject)>, id: ObjectId, i: int) -> Option<
    PdfObject,
>
    decreases objs.len() - i,
{
    if i < 0 || i >= objs.len() {
        None
    } else if objs[i].0 == id {
        Some(objs[i].1)
    } else {
        object_get(objs, id, i + 1)
    }
}

/// The most references that are followed from one object, as lopdf's
/// `Document::get_object` follows them.
pub const DEREF_LIMIT: usize = 128;

/// The object `o` with references followed, at most `hops` more of them.
pub open spec fn resolve_from(objs: Seq<(ObjectId, PdfObject)>, o: PdfObject, hops: nat) -> Option<
    PdfObject,
>
    decreases hops,
{
    match o {
        PdfObject::Reference(r) => if hops == 0 {
            None
        } else {
            match object_get(objs, r, 0) {
                Some(next) => resolve_from(objs, next, (hops - 1) as nat),
                None => None,
            }
        },
        _ => Some(o),
    }
}

/// The object with id `id`, with a chain of references from it followed to
/// the object it ends at; none where an id is missing or the chain is longer
/// than `DEREF_LIMIT`.
pub open spec fn resolved_object(objs: Seq<(ObjectId, PdfObject)>, id: ObjectId) -> Option<PdfObject> {
    match object_get(objs, id, 0) {
        Some(o) => resolve_from(objs, o, DEREF_LIMIT as nat),
        None => None,
    }
}

/// The integer under `key`, or 0 where there is none.
pub open spec fn int_entry(d: Seq<(Vec<u8>, PdfObject)>, key: Seq<u8>) -> i64 {
    match dict_get(d, key, 0) {
        Some(PdfObject::Integer(v)) => v,
        _ => 0,
    }
}

pub open spec fn width_key() -> Seq<u8> {
    seq![87u8, 105, 100, 116, 104]
}

fn width_key_bytes() -> (r: Vec<u8>)
    ensures
        r@ == width_key(),
{
    let r = vec![87u8, 105, 100, 116, 104];
    assert(r@ =~= width_key());
    r
}

pub open spec fn height_key() -> Seq<u8> {
    seq![72u8, 101, 105, 103, 104, 116]
}

fn height_key_bytes() -> (r: Vec<u8>)
    ensures
        r@ == height_key(),
{
    let r = vec![72u8, 101, 105, 103, 104, 116];
    assert(r@ =~= height_key());
    r
}

pub open spec fn filter_key() -> Seq<u8> {
    seq![70u8, 105, 108, 116, 101, 114]
}

fn filter_key_bytes() -> (r: Vec<u8>)
    ensures
        r@ == filter_key(),
{
    let r = vec![70u8, 105, 108, 116, 101, 114];
    assert(r@ =~= filter_key());
    r
}

pub open spec fn resources_key() -> Seq<u8> {
    seq![82u8, 101, 115, 111, 117, 114, 99, 101, 115]
}

fn resources_key_bytes() -> (r: Vec<u8>)
    ensures
        r@ == resources_key(),
{
    let r = vec![82u8, 101, 115, 111, 117, 114, 99, 101, 115];
    assert(r@ =~= resources_key());
    r
}

pub open spec fn xobject_key() -> Seq<u8> {
    seq![88u8, 79, 98, 106, 101, 99, 116]
}

fn xobject_key_bytes() -> (r: Vec<u8>)
    ensures
        r@ == xobject_key(),
{
    let r = vec![88u8, 79, 98, 106, 101, 99, 116];
    assert(r@ =~= xobject_key());
    r
}

pub open spec fn dct_name() -> Seq<u8> {
    seq![68u8, 67, 84, 68, 101, 99, 111, 100, 101]
}

fn dct_name_bytes() -> (r: Vec<u8>)
    ensures
        r@ == dct_name(),
{
    let r = vec![68u8, 67, 84, 68, 101, 99, 111, 100, 101];
    assert(r@ =~= dct_name());
    r
}

pub open spec fn flate_name() -> Seq<u8> {
    seq![70u8, 108, 97, 116, 101, 68, 101, 99, 111, 100, 101]
}

fn flate_name_bytes() -> (r: Vec<u8>)
    ensures
        r@ == flate_name(),
{
    let r = vec![70u8, 108, 97, 116, 101, 68, 101, 99, 111, 100, 101];
    assert(r@ =~= flate_name());
    r
}

/// The declared width, as an unsigned 32-bit count (0 when absent).
pub open spec fn declared_width(st: PdfStream) -> u32 {
    int_entry(st.dict@, width_key()) as u32
}

/// The declared height, as an unsigned 32-bit count (0 when absent).
pub open spec fn declared_height(st: PdfStream) -> u32 {
    int_entry(st.dict@, height_key()) as u32
}

/// The filter a stream declares by name.
pub open spec fn declared_filter(st: PdfStream) -> ImageFilter {
    match dict_get(st.dict@, filter_key(), 0) {
        Some(PdfObject::Name(n)) => if n@ == dct_name() {
            ImageFilter::Dct
        } else if n@ == flate_name() {
            ImageFilter::Flate
        } else {
            ImageFilter::Unsupported
        },
        _ => ImageFilter::Unsupported,
    }
}

/// A stream decodes to an image: both declared sizes are non-zero, and its
/// filter is DCT with decodable bytes, or Flate with exactly
/// `width * height * 4` bytes.
pub open spec fn decodable(st: PdfStream) -> bool {
    let w = declared_width(st);
    let h = declared_height(st);
    w != 0 && h != 0 && match declared_filter(st) {
        ImageFilter::Dct => decodes_as_image(st.content@),
        ImageFilter::Flate => st.content@.len() == 4 * w * h,
        ImageFilter::Unsupported => false,
    }
}

/// The XObject entries of a page: its dictionary's `Resources` dictionary's
/// `XObject` dictionary, where each of these is there directly.
pub open spec fn page_xobjects(doc: PdfDocument, page_id: ObjectId) -> Seq<(Vec<u8>, PdfObject)> {
    match resolved_object(doc.objects@, page_id) {
        Some(PdfObject::Dictionary(pd)) => match dict_get(pd@, resources_key(), 0) {
            Some(PdfObject::Dictionary(res)) => match dict_get(res@, xobject_key(), 0) {
                Some(PdfObject::Dictionary(x)) => x@,
                _ => Seq::empty(),
            },
            _ => Seq::empty(),
        },
        _ => Seq::empty(),
    }
}

/// The image that an XObject entry of page `page` yields: the entry refers,
/// directly or through a chain of references, to a stream that decodes.
pub open spec fn entry_image(doc: PdfDocument, page: u32, e: (Vec<u8>, PdfObject)) -> Option<
    (u32, Seq<u8>, u32, u32),
> {
    match e.1 {
        PdfObject::Reference(id) => match resolved_object(doc.objects@, id) {
            Some(PdfObject::Stream(st)) => if decodable(st) {
                Some((page, e.0@, declared_width(st), declared_height(st)))
            } else {
                None
            },
            _ => None,
        },
        _ => None,
    }
}

/// The images of a page's XObject entries, in entry order.
pub open spec fn page_images(doc: PdfDocument, page: u32, entries: Seq<(Vec<u8>, PdfObject)>) -> Seq<
    (u32, Seq<u8>, u32, u32),
>
    decreases entries.len(),
{
    if entries.len() == 0 {
        Seq::empty()
    } else {
        page_images(doc, page, entries.drop_last()) + match entry_image(doc, page, entries.last()) {
            Some(r) => seq![r],
            None => Seq::empty(),
        }
    }
}

/// The images of the given pages, page by page.
pub open spec fn doc_images(doc: PdfDocument, pages: Seq<(u32, ObjectId)>) -> Seq<
    (u32, Seq<u8>, u32, u32),
>
    decreases pages.len(),
{
    if pages.len() == 0 {
        Seq::empty()
    } else {
        doc_images(doc, pages.drop_last()) + page_images(
            doc,
            pages.last().0,
            page_xobjects(doc, pages.last().1),
        )
    }
}

fn bytes_eq(a: &[u8], b: &[u8]) -> (r: bool)
    ensures
        r == (a@ == b@),
{
    if a.len() != b.len() {
        return false;
    }
    let mut i: usize = 0;
    while i < a.len()
        invariant
            a@.len() == b@.len(),
            i <= a@.len(),
            forall|k: int| 0 <= k < i ==> a@[k] == b@[k],
        decreases a@.len() - i,
    {
        if a[i] != b[i] {
            return false;
        }
        i = i + 1;
    }
    assert(a@ =~= b@);
    true
}

/// The value of the first entry of `d` under `key`.
pub fn dict_lookup<'a>(d: &'a PdfDict, key: &[u8]) -> (r: Option<&'a PdfObject>)
    ensures
        r matches Some(o) ==> dict_get(d@, key@, 0) == Some(*o),
        r is None ==> dict_get(d@, key@, 0) is None,
{
    let mut i: usize = 0;
    while i < d.len()
        invariant
            i <= d@.len(),
            dict_get(d@, key@, 0) == dict_get(d@, key@, i as int),
        decreases d@.len() - i,
    {
        if bytes_eq(d[i].0.as_slice(), key) {
            return Some(&d[i].1);
        }
        i = i + 1;
    }
    None
}

fn int_value(d: &PdfDict, key: &[u8]) -> (r: i64)
    ensures
        r == int_entry(d@, key@),
{
    match dict_lookup(d, key) {
        Some(PdfObject::Integer(v)) => *v,
        _ => 0,
    }
}

impl PdfStream {
    /// The declared width and height, as unsigned 32-bit counts.
    pub fn declared_size(&self) -> (r: (u32, u32))
        ensures
            r == (declared_width(*self), declared_height(*self)),
    {
        let w = int_value(&self.dict, width_key_bytes().as_slice());
        let h = int_value(&self.dict, height_key_bytes().as_slice());
        (#[verifier::truncate] (w as u32), #[verifier::truncate] (h as u32))
    }

    /// The filter the stream declares.
    pub fn filter(&self) -> (r: ImageFilter)
        ensures
            r == declared_filter(*self),
    {
        match dict_lookup(&self.dict, filter_key_bytes().as_slice()) {
            Some(PdfObject::Name(n)) => {
                if bytes_eq(n.as_slice(), dct_name_bytes().as_slice()) {
                    ImageFilter::Dct
                } else if bytes_eq(n.as_slice(), flate_name_bytes().as_slice()) {
                    ImageFilter::Flate
                } else {
                    ImageFilter::Unsupported
                }
            },
            _ => ImageFilter::Unsupported,
        }
    }

    /// Decodes the stream as an image. A stream with a zero or absent width
    /// or height, an unsupported filter, JPEG bytes that do not decode, or
    /// Flate bytes that are not exactly `width * height * 4` long is skipped.
    pub fn decode(&self) -> (r: Option<image::DynamicImage>)
        ensures
            r is Some == decodable(*self),
    {
        let (w, h) = self.declared_size();
        if w == 0 || h == 0 {
            return None;
        }
        match self.filter() {
            ImageFilter::Dct => load_image(self.content.as_slice()),
            ImageFilter::Flate => {
                let n = self.content.len();
                let (w64, h64) = (w as u64, h as u64);
                assert(w64 * h64 <= 0xffff_fffe_0000_0001) by (nonlinear_arith)
                    requires
                        w64 <= 0xffff_ffff,
                        h64 <= 0xffff_ffff,
                ;
                let area = w64 * h64;
                assert(4 * w * h == area * 4) by (nonlinear_arith)
                    requires
                        area == w64 * h64,
                        w64 == w,
                        h64 == h,
                ;
                if (n as u128) == (area as u128) * 4 {
                    let data = self.content.clone();
                    assert(data@.len() == n);
                    rgba_image(w, h, data)
                } else {
                    None
                }
            },
            ImageFilter::Unsupported => None,
        }
    }
}

proof fn lemma_doc_images_step(doc: PdfDocument, pages: Seq<(u32, ObjectId)>, i: int)
    requires
        0 <= i < pages.len(),
    ensures
        doc_images(doc, pages.take(i + 1)) == doc_images(doc, pages.take(i)) + page_images(
            doc,
            pages[i].0,
            page_xobjects(doc, pages[i].1),
        ),
{
    assert(pages.take(i + 1).drop_last() =~= pages.take(i));
}

proof fn lemma_page_images_step(
    doc: PdfDocument,
    page: u32,
    entries: Seq<(Vec<u8>, PdfObject)>,
    j: int,
)
    requires
        0 <= j < entries.len(),
    ensures
        page_images(doc, page, entries.take(j + 1)) == page_images(doc, page, entries.take(j))
            + match entry_image(doc, page, entries[j]) {
            Some(r) => seq![r],
            None => Seq::empty(),
        },
{
    assert(entries.take(j + 1).drop_last() =~= entries.take(j));
}

/// Decodes every image that the pages' XObject resources name, page by page
/// in document order and, within a page, in dictionary order. Streams that
/// do not decode are skipped; nothing here fails.
pub fn extract_page_images(doc: &PdfDocument) -> (r: Vec<PageImage>)
    ensures
        r@.map_values(|p: PageImage| p.record()) == doc_images(*doc, doc.pages@),
{
    let mut out: Vec<PageImage> = Vec::new();
    let mut i: usize = 0;
    while i < doc.pages.len()
        invariant
            i <= doc.pages@.len(),
            out@.map_values(|p: PageImage| p.record()) == doc_images(*doc, doc.pages@.take(i as int)),
        decreases doc.pages@.len() - i,
    {
        let (page, page_id) = doc.pages[i];
        proof {
            lemma_doc_images_step(*doc, doc.pages@, i as int);
        }
        let ghost before = out@.map_values(|p: PageImage| p.record());
        if let Some(x) = doc.xobjects_of(page_id) {
            let mut j: usize = 0;
            while j < x.len()
                invariant
                    j <= x@.len(),
                    page_xobjects(*doc, page_id) == x@,
                    out@.map_values(|p: PageImage| p.record()) == before + page_images(
                        *doc,
                        page,
                        x@.take(j as int),
                    ),
                decreases x@.len() - j,
            {
                proof {
                    lemma_page_images_step(*doc, page, x@, j as int);
                }
                let ghost prev = out@;
                if let PdfObject::Reference(id) = &x[j].1 {
                    if let Some(PdfObject::Stream(st)) = doc.get_object(*id) {
                        if let Some(img) = st.decode() {
                            let (w, h) = st.declared_size();
                            let name = x[j].0.clone();
                            assert(name@ =~= x@[j as int].0@);
                            out.push(PageImage { page, name, width: w, height: h, image: img });
                            assert(out@.map_values(|p: PageImage| p.record()) =~= prev.map_values(
                                |p: PageImage| p.record(),
                            ).push(entry_image(*doc, page, x@[j as int])->Some_0));
                        }
                    }
                }
                j = j + 1;
            }
            assert(x@.take(x@.len() as int) =~= x@);
        } else {
            assert(page_images(*doc, page, Seq::<(Vec<u8>, PdfObject)>::empty()) =~= Seq::empty());
            assert(out@.map_values(|p: PageImage| p.record()) =~= before);
        }
        i = i + 1;
    }
    assert(doc.pages@.take(doc.pages@.len() as int) =~= doc.pages@);
    out
}

proof fn lemma_page_images_sized(doc: PdfDocument, page: u32, entries: Seq<(Vec<u8>, PdfObject)>)
    ensures
        forall|j: int|
            0 <= j < page_images(doc, page, entries).len() ==> (#[trigger] page_images(
                doc,
                page,
                entries,
            )[j]).2 != 0 && page_images(doc, page, entries)[j].3 != 0,
    decreases entries.len(),
{
    if entries.len() > 0 {
        lemma_page_images_sized(doc, page, entries.drop_last());
        let a = page_images(doc, page, entries.drop_last());
        let b: Seq<(u32, Seq<u8>, u32, u32)> = match entry_image(doc, page, entries.last()) {
            Some(r) => seq![r],
            None => Seq::empty(),
        };
        assert forall|j: int| 0 <= j < (a + b).len() implies (#[trigger] (a + b)[j]).2 != 0 && (a
            + b)[j].3 != 0 by {
            if j < a.len() {
                assert((a + b)[j] == a[j]);
            } else {
                assert((a + b)[j] == b[j - a.len()]);
            }
        }
    }
}

/// An XObject whose declared width or height is zero or absent yields no
/// image, and extraction does not fail on it: every extracted image has a
/// non-zero width and height.
pub proof fn lemma_zero_size_never_extracted(doc: PdfDocument, pages: Seq<(u32, ObjectId)>)
    ensures
        forall|j: int|
            0 <= j < doc_images(doc, pages).len() ==> (#[trigger] doc_images(doc, pages)[j]).2 != 0
                && doc_images(doc, pages)[j].3 != 0,
    decreases pages.len(),
{
    if pages.len() > 0 {
        lemma_zero_size_never_extracted(doc, pages.drop_last());
        lemma_page_images_sized(doc, pages.last().0, page_xobjects(doc, pages.last().1));
        let a = doc_images(doc, pages.drop_last());
        let b = page_images(doc, pages.last().0, page_xobjects(doc, pages.last().1));
        assert forall|j: int| 0 <= j < (a + b).len() implies (#[trigger] (a + b)[j]).2 != 0 && (a
            + b)[j].3 != 0 by {
            if j < a.len() {
                assert((a + b)[j] == a[j]);
            } else {
                assert((a + b)[j] == b[j - a.len()]);
            }
        }
    }
}

impl PdfDocument {
    /// The object with id `id` as stored.
    fn lookup(&self, id: ObjectId) -> (r: Option<&PdfObject>)
        ensures
            r matches Some(o) ==> object_get(self.objects@, id, 0) == Some(*o),
            r is None ==> object_get(self.objects@, id, 0) is None,
    {
        let mut i: usize = 0;
        while i < self.objects.len()
            invariant
                i <= self.objects@.len(),
                object_get(self.objects@, id, 0) == object_get(self.objects@, id, i as int),
            decreases self.objects@.len() - i,
        {
            let oid = self.objects[i].0;
            if oid.0 == id.0 && oid.1 == id.1 {
                return Some(&self.objects[i].1);
            }
            i = i + 1;
        }
        None
    }

    /// The object with id `id`, following a chain of references from it to
    /// the object it ends at.
    pub fn get_object(&self, id: ObjectId) -> (r: Option<&PdfObject>)
        ensures
            r matches Some(o) ==> resolved_object(self.objects@, id) == Some(*o),
            r is None ==> resolved_object(self.objects@, id) is None,
    {
        let mut o = match self.lookup(id) {
            Some(o) => o,
            None => return None,
        };
        let mut left: usize = DEREF_LIMIT;
        loop
            invariant
                left <= DEREF_LIMIT,
                resolved_object(self.objects@, id) == resolve_from(self.objects@, *o, left as nat),
            decreases left,
        {
            match o {
                PdfObject::Reference(r) => {
                    if left == 0 {
                        return None;
                    }
                    match self.lookup(*r) {
                        Some(next) => {
                            o = next;
                            left = left - 1;
                        },
                        None => return None,
                    }
                },
                _ => return Some(o),
            }
        }
    }

    /// The XObject entries of the page object `page_id`.
    fn xobjects_of(&self, page_id: ObjectId) -> (r: Option<&PdfDict>)
        ensures
            r matches Some(x) ==> page_xobjects(*self, page_id) == x@,
            r is None ==> page_xobjects(*self, page_id) == Seq::<(Vec<u8>, PdfObject)>::empty(),
    {
        if let Some(PdfObject::Dictionary(pd)) = self.get_object(page_id) {
            if let Some(PdfObject::Dictionary(res)) = dict_lookup(pd, resources_key_bytes().as_slice()) {
                if let Some(PdfObject::Dictionary(x)) = dict_lookup(res, xobject_key_bytes().as_slice()) {
                    return Some(x);
                }
            }
        }
        None
    }
}

} // verus!
