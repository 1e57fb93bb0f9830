//! Pixel-level comparison of two images and the classification of a pair.
use crate::raster::{
    decode_png, decoded_raster, lemma_pixels_fit, raster_ok, RasterView, RgbRaster, MAX_PIXELS,
};
use vstd::prelude::*;

verus! {

/// Folds one channel into the strongest difference seen so far: `best` is
/// `(magnitude, signed delta)`; a later channel replaces it only when its
/// magnitude is strictly larger.
pub open spec fn fold_channel(best: (int, int), c1: u8, c2: u8) -> (int, int) {
    let d = c2 as int - c1 as int;
    let a = if d < 0 { -d } else { d };
    if a > best.0 {
        (a, d)
    } else {
        best
    }
}

/// The strongest difference over the first `k` channels of two pixels.
pub open spec fn strongest_channel(p1: Seq<u8>, p2: Seq<u8>, k: int) -> (int, int)
    decreases k,
{
    if k <= 0 {
        (0, 0)
    } else {
        fold_channel(strongest_channel(p1, p2, k - 1), p1[k - 1], p2[k - 1])
    }
}

/// The three bytes of pixel `p`.
pub open spec fn pixel_at(data: Seq<u8>, p: int) -> Seq<u8> {
    data.subrange(3 * p, 3 * p + 3)
}

/// `(magnitude, signed delta)` of pixel `p`: the channel of largest absolute
/// difference `right - left`, the first one on ties.
pub open spec fn pixel_distance(l: Seq<u8>, r: Seq<u8>, p: int) -> (int, int) {
    strongest_channel(pixel_at(l, p), pixel_at(r, p), 3)
}

pub open spec fn pixel_differs(l: Seq<u8>, r: Seq<u8>, p: int) -> bool {
    pixel_at(l, p) != pixel_at(r, p)
}

/// How many of the first `n` pixels differ.
pub open spec fn count_differing(l: Seq<u8>, r: Seq<u8>, n: int) -> nat
    decreases n,
{
    if n <= 0 {
        0
    } else {
        count_differing(l, r, n - 1) + if pixel_differs(l, r, n - 1) {
            1nat
        } else {
            0nat
        }
    }
}

/// The sum of the magnitudes of the first `n` pixels.
pub open spec fn distance_total(l: Seq<u8>, r: Seq<u8>, n: int) -> nat
    decreases n,
{
    if n <= 0 {
        0
    } else {
        distance_total(l, r, n - 1) + pixel_distance(l, r, n - 1).0 as nat
    }
}

/// The visualisation of one pixel: a negative delta in red, any other in green.
pub open spec fn diff_pixel(m: (int, int)) -> Seq<u8> {
    if m.1 < 0 {
        seq![m.0 as u8, 0u8, 0u8]
    } else {
        seq![0u8, m.0 as u8, 0u8]
    }
}

/// The visualisation of the first `n` pixels.
pub open spec fn diff_pixels(l: Seq<u8>, r: Seq<u8>, n: int) -> Seq<u8>
    decreases n,
{
    if n <= 0 {
        Seq::empty()
    } else {
        diff_pixels(l, r, n - 1) + diff_pixel(pixel_distance(l, r, n - 1))
    }
}

/// What a `Difference` is.
pub enum DiffView {
    Identical,
    MissingFile,
    LoadError,
    SizeMismatch,
    Content { n_different_pixels: u64, distance_sum: u64, diff_image: RasterView },
}

/// The difference of two decoded images.
pub open spec fn raster_difference(left: RasterView, right: RasterView) -> DiffView {
    if left.width != right.width || left.height != right.height {
        DiffView::SizeMismatch
    } else {
        let n = left.width as int * left.height as int;
        let k = count_differing(left.data, right.data, n);
        if k == 0 {
            DiffView::Identical
        } else {
            DiffView::Content {
                n_different_pixels: k as u64,
                distance_sum: distance_total(left.data, right.data, n) as u64,
                diff_image: RasterView {
                    width: left.width,
                    height: left.height,
                    data: diff_pixels(left.data, right.data, n),
                },
            }
        }
    }
}

/// The outcome of comparing a pair of images.
#[derive(Debug)]
pub enum Difference {
    Identical,
    MissingFile,
    LoadError,
    SizeMismatch,
    Content { n_different_pixels: u64, distance_sum: u64, diff_image: RgbRaster },
}

impl View for Difference {
    type V = DiffView;

    open spec fn view(&self) -> DiffView {
        match self {
            Difference::Identical => DiffView::Identical,
            Difference::MissingFile => DiffView::MissingFile,
            Difference::LoadError => DiffView::LoadError,
            Difference::SizeMismatch => DiffView::SizeMismatch,
            Difference::Content { n_different_pixels, distance_sum, diff_image } => {
                DiffView::Content {
                    n_different_pixels: *n_different_pixels,
                    distance_sum: *distance_sum,
                    diff_image: diff_image@,
                }
            },
        }
    }
}

impl Difference {
    pub open spec fn wf(&self) -> bool {
        match self {
            Difference::Content { diff_image, .. } => diff_image.wf(),
            _ => true,
        }
    }
}

/// The channel of largest absolute difference `p2 - p1` between two pixels,
/// as `(magnitude, signed delta)`; on ties the first such channel wins.
pub fn compute_distance(p1: [u8; 3], p2: [u8; 3]) -> (r: (i32, i32))
    ensures
        r.0 as int == strongest_channel(p1@, p2@, 3).0,
        r.1 as int == strongest_channel(p1@, p2@, 3).1,
        0 <= r.0 <= 255,
        r.0 == r.1 || r.0 == -r.1,
{
    let mut abs_v: i32 = 0;
    let mut v: i32 = 0;
    let mut c: usize = 0;
    while c < 3
        invariant
            c <= 3,
            abs_v as int == strongest_channel(p1@, p2@, c as int).0,
            v as int == strongest_channel(p1@, p2@, c as int).1,
            0 <= abs_v <= 255,
            abs_v == v || abs_v == -v,
        decreases 3 - c,
    {
        let new: i32 = p2[c] as i32 - p1[c] as i32;
        let abs_new: i32 = if new < 0 { -new } else { new };
        if abs_new > abs_v {
            abs_v = abs_new;
            v = new;
        }
        c = c + 1;
    }
    (abs_v, v)
}


proof fn lemma_pixel_bytes(data: Seq<u8>, p: int)
    requires
        0 <= p,
        3 * p + 3 <= data.len(),
    ensures
        pixel_at(data, p) == seq![data[3 * p], data[3 * p + 1], data[3 * p + 2]],
{
    assert(pixel_at(data, p) =~= seq![data[3 * p], data[3 * p + 1], data[3 * p + 2]]);
}

/// Compares two decoded images: a size mismatch, no differing pixel, or the
/// count, the distance sum and the visualisation of the differences.
pub fn compare_rasters(left: &RgbRaster, right: &RgbRaster) -> (r: Difference)
    requires
        left.wf(),
        right.wf(),
    ensures
        r@ == raster_difference(left@, right@),
        r.wf(),
{
    if left.width != right.width || left.height != right.height {
        return Difference::SizeMismatch;
    }
    proof {
        lemma_pixels_fit(left.width, left.height);
    }
    let ghost n: int = left.width as int * left.height as int;
    let n_bytes: usize = left.data.len();
    let n_pixels: usize = n_bytes / 3;
    assert(n_pixels == n);
    let ghost l = left.data@;
    let ghost rd = right.data@;
    let mut n_different_pixels: u64 = 0;
    let mut p: usize = 0;
    while p < n_pixels
        invariant
            p <= n_pixels == n,
            l == left.data@,
            rd == right.data@,
            l.len() == 3 * n,
            rd.len() == 3 * n,
            n <= MAX_PIXELS,
            3 * n == n_bytes,
            n_different_pixels as int == count_differing(l, rd, p as int),
            count_differing(l, rd, p as int) <= p,
        decreases n_pixels - p,
    {
        let i: usize = 3 * p;
        proof {
            lemma_pixel_bytes(l, p as int);
            lemma_pixel_bytes(rd, p as int);
        }
        if left.data[i] != right.data[i] || left.data[i + 1] != right.data[i + 1] || left.data[i
            + 2] != right.data[i + 2] {
            n_different_pixels = n_different_pixels + 1;
        }
        p = p + 1;
    }
    if n_different_pixels == 0 {
        return Difference::Identical;
    }
    let mut distance_sum: u64 = 0;
    let mut diff_data: Vec<u8> = Vec::new();
    let mut p: usize = 0;
    while p < n_pixels
        invariant
            p <= n_pixels == n,
            l == left.data@,
            rd == right.data@,
            l.len() == 3 * n,
            rd.len() == 3 * n,
            n <= MAX_PIXELS,
            3 * n == n_bytes,
            distance_sum as int == distance_total(l, rd, p as int),
            distance_total(l, rd, p as int) <= 255 * p,
            diff_data@ == diff_pixels(l, rd, p as int),
            diff_data@.len() == 3 * p,
        decreases n_pixels - p,
    {
        let i: usize = 3 * p;
        let p1: [u8; 3] = [left.data[i], left.data[i + 1], left.data[i + 2]];
        let p2: [u8; 3] = [right.data[i], right.data[i + 1], right.data[i + 2]];
        proof {
            lemma_pixel_bytes(l, p as int);
            lemma_pixel_bytes(rd, p as int);
            assert(p1@ =~= pixel_at(l, p as int));
            assert(p2@ =~= pixel_at(rd, p as int));
        }
        let (abs_v, v) = compute_distance(p1, p2);
        distance_sum = distance_sum + abs_v as u64;
        if v < 0 {
            diff_data.push(abs_v as u8);
            diff_data.push(0);
            diff_data.push(0);
        } else {
            diff_data.push(0);
            diff_data.push(abs_v as u8);
            diff_data.push(0);
        }
        proof {
            assert(diff_data@ =~= diff_pixels(l, rd, p as int) + diff_pixel(
                pixel_distance(l, rd, p as int),
            ));
        }
        p = p + 1;
    }
    let diff_image = RgbRaster { width: left.width, height: left.height, data: diff_data };
    Difference::Content { n_different_pixels, distance_sum, diff_image }
}


/// The visualisation of `n` pixels holds three bytes for each, the one of
/// pixel `q` being the visualisation of that pixel's distance.
pub proof fn lemma_diff_pixels_shape(l: Seq<u8>, r: Seq<u8>, n: int)
    requires
        0 <= n,
    ensures
        diff_pixels(l, r, n).len() == 3 * n,
        forall|q: int|
            0 <= q < n ==> #[trigger] pixel_at(diff_pixels(l, r, n), q) == diff_pixel(
                pixel_distance(l, r, q),
            ),
    decreases n,
{
    if n > 0 {
        lemma_diff_pixels_shape(l, r, n - 1);
        let prev = diff_pixels(l, r, n - 1);
        let last = diff_pixel(pixel_distance(l, r, n - 1));
        assert(last.len() == 3);
        assert forall|q: int| 0 <= q < n implies #[trigger] pixel_at(diff_pixels(l, r, n), q)
            == diff_pixel(pixel_distance(l, r, q)) by {
            if q < n - 1 {
                assert(pixel_at(prev + last, q) =~= pixel_at(prev, q));
            } else {
                assert(pixel_at(prev + last, q) =~= last);
            }
        }
    }
}

/// A pixel equal on both sides has no distance.
proof fn lemma_equal_pixel_distance(l: Seq<u8>, r: Seq<u8>, q: int)
    requires
        0 <= q,
        3 * q + 3 <= l.len(),
        3 * q + 3 <= r.len(),
        pixel_at(l, q) == pixel_at(r, q),
    ensures
        pixel_distance(l, r, q) == (0int, 0int),
{
    reveal_with_fuel(strongest_channel, 4);
    let a = pixel_at(l, q);
    let b = pixel_at(r, q);
    assert(a[0] == b[0] && a[1] == b[1] && a[2] == b[2]);
}

/// Where the pixels below `n` are equal on both sides but for pixel `p`, only
/// `p` can count as different and only its distance adds up.
proof fn lemma_equal_except(l: Seq<u8>, r: Seq<u8>, p: int, n: int)
    requires
        0 <= n,
        0 <= p,
        3 * n <= l.len(),
        3 * n <= r.len(),
        forall|q: int| 0 <= q < n && q != p ==> #[trigger] pixel_at(l, q) == pixel_at(r, q),
    ensures
        count_differing(l, r, n) == if p < n && pixel_differs(l, r, p) {
            1nat
        } else {
            0nat
        },
        distance_total(l, r, n) == if p < n {
            pixel_distance(l, r, p).0 as nat
        } else {
            0nat
        },
    decreases n,
{
    if n > 0 {
        lemma_equal_except(l, r, p, n - 1);
        if n - 1 != p {
            lemma_equal_pixel_distance(l, r, n - 1);
        }
    }
}

/// Identical images match: no pixel differs.
pub proof fn lemma_identical_images_match(image: RasterView)
    requires
        raster_ok(image.width, image.height, image.data),
    ensures
        raster_difference(image, image) == DiffView::Identical,
{
    let n = image.width as int * image.height as int;
    lemma_pixels_fit(image.width, image.height);
    lemma_equal_except(image.data, image.data, n, n);
}

/// Two images that differ only in one channel of one pixel, which drops from
/// 100 on the left to 80 on the right, have one different pixel, a distance
/// sum of 20, and a visualisation that is red 20 at that pixel and black
/// everywhere else.
pub proof fn lemma_single_channel_drop(left: RasterView, right: RasterView, p: int, c: int)
    requires
        raster_ok(left.width, left.height, left.data),
        right.width == left.width,
        right.height == left.height,
        0 <= p < left.width as int * left.height as int,
        0 <= c < 3,
        left.data[3 * p + c] == 100,
        right.data == left.data.update(3 * p + c, 80),
    ensures
        raster_difference(left, right) is Content,
        raster_difference(left, right)->n_different_pixels == 1,
        raster_difference(left, right)->distance_sum == 20,
        pixel_at(raster_difference(left, right)->diff_image.data, p) == seq![20u8, 0u8, 0u8],
        forall|q: int|
            0 <= q < left.width as int * left.height as int && q != p ==> #[trigger] pixel_at(
                raster_difference(left, right)->diff_image.data,
                q,
            ) == seq![0u8, 0u8, 0u8],
{
    let n = left.width as int * left.height as int;
    lemma_pixels_fit(left.width, left.height);
    let l = left.data;
    let r = right.data;
    assert forall|q: int| 0 <= q < n && q != p implies #[trigger] pixel_at(l, q) == pixel_at(r, q) by {
        assert(pixel_at(l, q) =~= pixel_at(r, q));
    }
    assert(pixel_at(l, p)[c] != pixel_at(r, p)[c]);
    reveal_with_fuel(strongest_channel, 4);
    assert(pixel_distance(l, r, p) == (20int, -20int)) by {
        let a = pixel_at(l, p);
        let b = pixel_at(r, p);
        assert(forall|k: int| 0 <= k < 3 && k != c ==> a[k] == b[k]);
    }
    lemma_equal_except(l, r, p, n);
    lemma_diff_pixels_shape(l, r, n);
    assert forall|q: int| 0 <= q < n && q != p implies #[trigger] pixel_at(
        diff_pixels(l, r, n),
        q,
    ) == seq![0u8, 0u8, 0u8] by {
        lemma_equal_pixel_distance(l, r, q);
    }
}

/// Images whose every pixel is brighter by 10 in green on the right, the other
/// channels equal, have a visualisation that is green 10 everywhere and a
/// distance sum of 10 per pixel.
pub proof fn lemma_uniform_green_shift(left: RasterView, right: RasterView)
    requires
        raster_ok(left.width, left.height, left.data),
        right.width == left.width,
        right.height == left.height,
        left.width as int * left.height as int > 0,
        right.data.len() == left.data.len(),
        forall|q: int|
            0 <= q < left.width as int * left.height as int ==> #[trigger] pixel_at(right.data, q)
                == seq![left.data[3 * q], (left.data[3 * q + 1] + 10) as u8, left.data[3 * q + 2]]
                && left.data[3 * q + 1] + 10 <= 255,
    ensures
        raster_difference(left, right) is Content,
        raster_difference(left, right)->distance_sum == 10 * (left.width as int
            * left.height as int),
        raster_difference(left, right)->diff_image.data.len() == left.data.len(),
        forall|q: int|
            0 <= q < left.width as int * left.height as int ==> #[trigger] pixel_at(
                raster_difference(left, right)->diff_image.data,
                q,
            ) == seq![0u8, 10u8, 0u8],
{
    let n = left.width as int * left.height as int;
    lemma_pixels_fit(left.width, left.height);
    let l = left.data;
    let r = right.data;
    reveal_with_fuel(strongest_channel, 4);
    assert forall|q: int| 0 <= q < n implies #[trigger] pixel_distance(l, r, q) == (10int, 10int)
        && pixel_differs(l, r, q) by {
        let b = pixel_at(r, q);
        assert(b[1] == (l[3 * q + 1] + 10) as u8);
        assert(pixel_at(l, q)[1] != b[1]);
    }
    lemma_shifted_totals(l, r, n);
    lemma_diff_pixels_shape(l, r, n);
    assert forall|q: int| 0 <= q < n implies #[trigger] pixel_at(diff_pixels(l, r, n), q) == seq![
        0u8,
        10u8,
        0u8,
    ] by {
        assert(pixel_distance(l, r, q) == (10int, 10int));
    }
}

proof fn lemma_shifted_totals(l: Seq<u8>, r: Seq<u8>, n: int)
    requires
        0 <= n,
        forall|q: int| 0 <= q < n ==> #[trigger] pixel_distance(l, r, q) == (10int, 10int)
            && pixel_differs(l, r, q),
    ensures
        count_differing(l, r, n) == n,
        distance_total(l, r, n) == 10 * n,
    decreases n,
{
    if n > 0 {
        lemma_shifted_totals(l, r, n - 1);
        assert(pixel_distance(l, r, n - 1) == (10int, 10int));
    }
}

/// The dimensions of an image.
#[derive(Debug, Clone, Copy, PartialEq, Eq)]
pub struct Size {
    pub width: u32,
    pub height: u32,
}

impl Size {
    pub fn new(width: u32, height: u32) -> (r: Self)
        ensures
            r.width == width,
            r.height == height,
    {
        Size { width, height }
    }
}

/// What is known of an image that decoded.
#[derive(Debug)]
pub struct ImageInfo {
    pub size: Size,
}

impl ImageInfo {
    pub fn from_image(image: &RgbRaster) -> (r: Self)
        ensures
            r.size.width == image.width,
            r.size.height == image.height,
    {
        ImageInfo { size: Size::new(image.width, image.height) }
    }
}

/// How one side of a pair loaded.
#[derive(Debug)]
pub enum ImageInfoResult {
    Loaded(ImageInfo),
    Missing,
    Error(String),
}

/// What an `ImageInfoResult` is.
pub enum InfoView {
    Loaded { width: u32, height: u32 },
    Missing,
    Error(Seq<char>),
}

impl View for ImageInfoResult {
    type V = InfoView;

    open spec fn view(&self) -> InfoView {
        match self {
            ImageInfoResult::Loaded(info) => InfoView::Loaded {
                width: info.size.width,
                height: info.size.height,
            },
            ImageInfoResult::Missing => InfoView::Missing,
            ImageInfoResult::Error(msg) => InfoView::Error(msg@),
        }
    }
}

impl ImageInfoResult {
    /// The image's information where it loaded.
    pub fn info(&self) -> (r: Option<&ImageInfo>)
        ensures
            r.is_some() <==> self is Loaded,
            self is Loaded ==> r == Some(&self->Loaded_0),
    {
        match self {
            ImageInfoResult::Loaded(info) => Some(info),
            _ => None,
        }
    }
}

/// The bytes of an image file as they were read, or the failure to read them.
#[derive(Debug)]
pub enum FileContents {
    Unreadable,
    Bytes(Vec<u8>),
}

/// How an image file loads: absent, unreadable, not a decodable image, or a raster.
pub enum LoadView {
    Missing,
    Unreadable,
    Undecodable,
    Decoded(RasterView),
}

/// The contents that a reference to them, if any, stands for.
pub open spec fn contents_of(file: Option<&FileContents>) -> Option<FileContents> {
    match file {
        Some(f) => Some(*f),
        None => None,
    }
}

pub open spec fn load_view(file: Option<FileContents>) -> LoadView {
    match file {
        None => LoadView::Missing,
        Some(FileContents::Unreadable) => LoadView::Unreadable,
        Some(FileContents::Bytes(b)) => match decoded_raster(b@) {
            Some(v) => LoadView::Decoded(v),
            None => LoadView::Undecodable,
        },
    }
}

/// The information reported for one side: the message of a failure is
/// "IO error" where the file could not be read and "Image error" where it did
/// not decode.
pub open spec fn info_of(load: LoadView) -> InfoView {
    match load {
        LoadView::Missing => InfoView::Missing,
        LoadView::Unreadable => InfoView::Error("IO error"@),
        LoadView::Undecodable => InfoView::Error("Image error"@),
        LoadView::Decoded(v) => InfoView::Loaded { width: v.width, height: v.height },
    }
}

pub open spec fn load_failed(load: LoadView) -> bool {
    load is Unreadable || load is Undecodable
}

/// The difference of a pair: a load failure on either side wins over a
/// missing file; two decoded images are compared pixel by pixel.
pub open spec fn pair_difference(left: LoadView, right: LoadView) -> DiffView {
    if left is Decoded && right is Decoded {
        raster_difference(left->Decoded_0, right->Decoded_0)
    } else if load_failed(left) || load_failed(right) {
        DiffView::LoadError
    } else {
        DiffView::MissingFile
    }
}

/// Loads one side of a pair: `None` stands for a file that does not exist.
pub fn load_image_with_info(file: Option<&FileContents>) -> (r: (Option<RgbRaster>, ImageInfoResult))
    ensures
        r.1@ == info_of(load_view(contents_of(file))),
        r.0.is_some() <==> load_view(contents_of(file)) is Decoded,
        r.0.is_some() ==> r.0.unwrap().wf() && r.0.unwrap()@ == load_view(contents_of(file))->Decoded_0,
{
    match file {
        None => (None, ImageInfoResult::Missing),
        Some(FileContents::Unreadable) => (None, ImageInfoResult::Error(String::from_str("IO error"))),
        Some(FileContents::Bytes(bytes)) => match decode_png(bytes.as_slice()) {
            Some(image) => {
                let info = ImageInfo::from_image(&image);
                (Some(image), ImageInfoResult::Loaded(info))
            },
            None => (None, ImageInfoResult::Error(String::from_str("Image error"))),
        },
    }
}

/// Loads both sides of a pair and classifies their difference.
pub fn compute_pair_diff(left: Option<&FileContents>, right: Option<&FileContents>) -> (r: (
    Difference,
    ImageInfoResult,
    ImageInfoResult,
))
    ensures
        r.0@ == pair_difference(load_view(contents_of(left)), load_view(contents_of(right))),
        r.0.wf(),
        r.1@ == info_of(load_view(contents_of(left))),
        r.2@ == info_of(load_view(contents_of(right))),
{
    let (left_image, left_info) = load_image_with_info(left);
    let (right_image, right_info) = load_image_with_info(right);
    match (left_image, right_image) {
        (Some(l), Some(r)) => (compare_rasters(&l, &r), left_info, right_info),
        _ => {
            let failed = matches!(left_info, ImageInfoResult::Error(_)) || matches!(right_info, ImageInfoResult::Error(_));
            let difference = if failed {
                Difference::LoadError
            } else {
                Difference::MissingFile
            };
            (difference, left_info, right_info)
        },
    }
}

} // verus!
