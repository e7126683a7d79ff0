//! Codes and flags of the PDFium library.

use vstd::prelude::*;

verus! {

pub const FPDF_ERR_SUCCESS: u32 = 0;

pub const FPDF_ERR_UNKNOWN: u32 = 1;

pub const FPDF_ERR_FILE: u32 = 2;

pub const FPDF_ERR_FORMAT: u32 = 3;

pub const FPDF_ERR_PASSWORD: u32 = 4;

pub const FPDF_ERR_SECURITY: u32 = 5;

pub const FPDF_ERR_PAGE: u32 = 6;

/// Four bytes for each pixel.
pub const FPDFBITMAP_BGRA: i32 = 4;

pub const FPDF_NONE: i32 = 0;

pub const FPDF_ANNOT: i32 = 0x02;

pub const FPDF_LCD_TEXT: i32 = 0x04;

pub const FPDF_GRAYSCALE: i32 = 0x10;

pub const FPDF_PRINTING: i32 = 0x200;

/// What a code of the last error means.
pub open spec fn error_meaning(code: u32) -> Seq<char> {
    if code == FPDF_ERR_SUCCESS {
        "Success"@
    } else if code == FPDF_ERR_UNKNOWN {
        "Unknown error"@
    } else if code == FPDF_ERR_FILE {
        "File not found or cannot be opened"@
    } else if code == FPDF_ERR_FORMAT {
        "File is not a PDF or is corrupted"@
    } else if code == FPDF_ERR_PASSWORD {
        "Incorrect password"@
    } else if code == FPDF_ERR_SECURITY {
        "Unsupported security scheme"@
    } else if code == FPDF_ERR_PAGE {
        "Page does not exist or content error"@
    } else {
        "Unrecognized PDFium error"@
    }
}

/// What a code of the last error means.
pub fn error_str(code: u32) -> (s: &'static str)
    ensures
        s@ == error_meaning(code),
{
    if code == FPDF_ERR_SUCCESS {
        "Success"
    } else if code == FPDF_ERR_UNKNOWN {
        "Unknown error"
    } else if code == FPDF_ERR_FILE {
        "File not found or cannot be opened"
    } else if code == FPDF_ERR_FORMAT {
        "File is not a PDF or is corrupted"
    } else if code == FPDF_ERR_PASSWORD {
        "Incorrect password"
    } else if code == FPDF_ERR_SECURITY {
        "Unsupported security scheme"
    } else if code == FPDF_ERR_PAGE {
        "Page does not exist or content error"
    } else {
        "Unrecognized PDFium error"
    }
}

} // verus!
