//! What the report collaborator reads: its titles, the displayed size of an
//! image and the data URL that embeds PNG bytes.
use crate::difference::Size;
use vstd::prelude::*;

verus! {

/// The titles of the two sides in a report.
pub struct ReportConfig {
    pub left_title: String,
    pub right_title: String,
}

impl Default for ReportConfig {
    fn default() -> (r: Self)
        ensures
            r.left_title@ == "Left image"@,
            r.right_title@ == "Right image"@,
    {
        ReportConfig {
            left_title: String::from_str("Left image"),
            right_title: String::from_str("Right image"),
        }
    }
}

impl ReportConfig {
    pub fn set_left_title(&mut self, title: &str)
        ensures
            final(self).left_title@ == title@,
            final(self).right_title == old(self).right_title,
    {
        self.left_title = String::from_str(title);
    }

    pub fn set_right_title(&mut self, title: &str)
        ensures
            final(self).right_title@ == title@,
            final(self).left_title == old(self).left_title,
    {
        self.right_title = String::from_str(title);
    }

    pub fn left_title(&self) -> (r: &str)
        ensures
            r@ == self.left_title@,
    {
        self.left_title.as_str()
    }

    pub fn right_title(&self) -> (r: &str)
        ensures
            r@ == self.right_title@,
    {
        self.right_title.as_str()
    }
}

/// The displayed width and height of an image: only its longer side (the
/// height on a tie) is given, capped at `size_limit`.
pub fn html_size(size: &Size, size_limit: u32) -> (r: (Option<u32>, Option<u32>))
    ensures
        size.width > size.height ==> r == (Some(
            if size.width < size_limit {
                size.width
            } else {
                size_limit
            },
        ), None::<u32>),
        size.width <= size.height ==> r == (None::<u32>, Some(
            if size.height < size_limit {
                size.height
            } else {
                size_limit
            },
        )),
{
    if size.width > size.height {
        (Some(if size.width < size_limit { size.width } else { size_limit }), None)
    } else {
        (None, Some(if size.height < size_limit { size.height } else { size_limit }))
    }
}

/// The standard base64 encoding (with padding) of a byte sequence.
pub uninterp spec fn base64_of(data: Seq<u8>) -> Seq<char>;

/// Relies on `base64::engine::general_purpose::STANDARD.encode`: the padded
/// standard base64 text of the bytes. It panics only where the encoded length
/// overflows `usize`, which `requires` leaves out.
#[verifier::external_body]
fn base64_encode(data: &[u8]) -> (r: String)
    requires
        data@.len() / 3 * 4 + 4 <= usize::MAX,
    ensures
        r@ == base64_of(data@),
{
    base64::Engine::encode(&base64::engine::general_purpose::STANDARD, data)
}

/// A `data:` URL that embeds PNG bytes.
pub fn embed_png_url(data: &[u8]) -> (r: String)
    requires
        data@.len() / 3 * 4 + 4 <= usize::MAX,
    ensures
        r@ == "data:image/png;base64,"@ + base64_of(data@),
{
    let url = String::from_str("data:image/png;base64,");
    let encoded = base64_encode(data);
    let mut url = url;
    url.append(encoded.as_str());
    url
}

} // verus!
