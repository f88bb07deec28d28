//! From a text to its QR code.

use qrcodegen::{DataTooLong, QrCode, QrCodeEcc};
use vstd::prelude::*;

verus! {

/// `qrcodegen::QrCode`: a QR code. What is known of it here is its size and
/// which of its modules are dark.
#[verifier::external_type_specification]
#[verifier::external_body]
pub struct ExQrCode(QrCode);

/// `qrcodegen::DataTooLong`, the error of `QrCode::encode_text`. Nothing is
/// known of it here.
#[verifier::external_type_specification]
#[verifier::external_body]
pub struct ExDataTooLong(DataTooLong);

/// The dark modules of a QR code, each by its column and its row, counted
/// from the top left corner.
pub uninterp spec fn qr_dark(qr: QrCode) -> Set<(int, int)>;

/// The number of modules along a side of a QR code.
pub uninterp spec fn qr_size(qr: QrCode) -> int;

/// The QR code that stands for a text at the medium level of error
/// correction, as its size and its dark modules; `None` for a text that is
/// too long for any QR code.
pub uninterp spec fn qr_of_text(text: Seq<char>) -> Option<(int, Set<(int, int)>)>;

/// The text is too long to fit in a QR code.
#[derive(Debug, Clone, Copy, PartialEq, Eq)]
pub struct TextTooLong;

/// `QrCode::size`. Believed, not proved: a QR code has between 21 and 177
/// modules along a side.
pub assume_specification[ QrCode::size ](qr: &QrCode) -> (size: i32)
    ensures
        size == qr_size(*qr),
        21 <= size <= 177,
;

/// `QrCode::get_module`. Believed, not proved: the answer depends on the
/// code and the place alone, and no place outside the code is dark.
pub assume_specification[ QrCode::get_module ](qr: &QrCode, x: i32, y: i32) -> (dark: bool)
    ensures
        dark == qr_dark(*qr).contains((x as int, y as int)),
        dark ==> 0 <= x < qr_size(*qr) && 0 <= y < qr_size(*qr),
;

/// Calls `QrCode::encode_text` with the medium level of error correction.
/// Believed, not proved: whether the call succeeds, and the code it gives,
/// depend on the text alone.
#[verifier::external_body]
fn encode_text_medium(text: &str) -> (r: Result<QrCode, DataTooLong>)
    ensures
        match r {
            Ok(qr) => qr_of_text(text@) == Some((qr_size(qr), qr_dark(qr))),
            Err(_) => qr_of_text(text@) is None,
        },
{
    QrCode::encode_text(text, QrCodeEcc::Medium)
}

/// Makes the QR code of `data` at the medium level of error correction.
pub fn generate_qr_code(data: &str) -> (r: Result<QrCode, TextTooLong>)
    ensures
        match r {
            Ok(qr) => qr_of_text(data@) == Some((qr_size(qr), qr_dark(qr))),
            Err(_) => qr_of_text(data@) is None,
        },
{
    match encode_text_medium(data) {
        Ok(qr) => Ok(qr),
        Err(_) => Err(TextTooLong),
    }
}

} // verus!
