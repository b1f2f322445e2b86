//! Where the native helpers live on each platform. The environment is read by the
//! application, which passes the variables' values in.

use vstd::prelude::*;
use crate::model::AppError;
use crate::text::{append_chars, str_chars, string_from_chars};

verus! {

/// The operating system the application was built for.
#[derive(Clone, Copy, Debug, PartialEq, Eq, Structural)]
pub enum HostOs {
    MacOs,
    Windows,
    Other,
}

/// The conventional Tesseract language-data directory of each platform.
pub open spec fn default_tessdata(os: HostOs) -> Seq<char> {
    match os {
        HostOs::MacOs => "/opt/homebrew/share/tessdata"@,
        HostOs::Windows => "C:\\Program Files\\Tesseract-OCR\\tessdata"@,
        HostOs::Other => "/usr/share/tessdata"@,
    }
}

/// The directory holding Tesseract's language data: `TESSDATA_PREFIX` when it is set
/// (whatever the platform), else the platform's conventional location.
pub fn tessdata_dir(tessdata_prefix: Option<String>, os: HostOs) -> (r: String)
    ensures
        match tessdata_prefix {
            Some(v) => r@ == v@,
            None => r@ == default_tessdata(os),
        },
{
    match tessdata_prefix {
        Some(v) => v,
        None => match os {
            HostOs::MacOs => string_from_chars(str_chars("/opt/homebrew/share/tessdata")),
            HostOs::Windows => string_from_chars(
                str_chars("C:\\Program Files\\Tesseract-OCR\\tessdata"),
            ),
            HostOs::Other => string_from_chars(str_chars("/usr/share/tessdata")),
        },
    }
}

/// The directory searched first for the PDFium library: `PDFIUM_DIR` when it is set,
/// else the working directory.
pub fn pdfium_dir(pdfium_dir_var: Option<String>) -> (r: String)
    ensures
        match pdfium_dir_var {
            Some(v) => r@ == v@,
            None => r@ == "./"@,
        },
{
    match pdfium_dir_var {
        Some(v) => v,
        None => string_from_chars(str_chars("./")),
    }
}

/// The application's data directory below the platform's base directory.
pub open spec fn data_dir_suffix(os: HostOs) -> Seq<char> {
    match os {
        HostOs::MacOs => "/Library/Application Support/WhatTheFile"@,
        HostOs::Windows => "\\WhatTheFile"@,
        HostOs::Other => "/.local/share/WhatTheFile"@,
    }
}

/// The base directory the data directory lives under: `%LOCALAPPDATA%` on Windows, the
/// home directory elsewhere.
pub open spec fn data_dir_base(os: HostOs, home: Option<String>, local_app_data: Option<String>) -> Option<
    Seq<char>,
> {
    match os {
        HostOs::Windows => match local_app_data {
            Some(v) => Some(v@),
            None => None,
        },
        _ => match home {
            Some(v) => Some(v@),
            None => None,
        },
    }
}

/// Where the application keeps its data: `~/Library/Application Support/WhatTheFile` on
/// macOS, `%LOCALAPPDATA%\WhatTheFile` on Windows, `~/.local/share/WhatTheFile`
/// elsewhere. `home` and `local_app_data` are the values of `HOME` and `LOCALAPPDATA`;
/// without the one the platform needs there is no such directory (a configuration error).
pub fn app_data_dir(os: HostOs, home: Option<String>, local_app_data: Option<String>) -> (r: Result<
    String,
    AppError,
>)
    ensures
        match data_dir_base(os, home, local_app_data) {
            Some(b) => r matches Ok(d) && d@ == b + data_dir_suffix(os),
            None => r matches Err(AppError::Config(m)) && m@ == "application data directory unknown: "@
                + match os {
                HostOs::Windows => "LOCALAPPDATA"@,
                _ => "HOME"@,
            } + " is not set"@,
        },
{
    let (base, var) = match os {
        HostOs::Windows => (local_app_data, "LOCALAPPDATA"),
        _ => (home, "HOME"),
    };
    let suffix = match os {
        HostOs::MacOs => "/Library/Application Support/WhatTheFile",
        HostOs::Windows => "\\WhatTheFile",
        HostOs::Other => "/.local/share/WhatTheFile",
    };
    match base {
        Some(b) => {
            let mut d = str_chars(b.as_str());
            append_chars(&mut d, &str_chars(suffix));
            Ok(string_from_chars(d))
        },
        None => {
            let mut m = str_chars("application data directory unknown: ");
            append_chars(&mut m, &str_chars(var));
            append_chars(&mut m, &str_chars(" is not set"));
            Err(AppError::Config(string_from_chars(m)))
        },
    }
}

} // verus!
