//! Where the node keeps what it knows on disk, and names derived from paths.
use vstd::prelude::*;
use vstd::string::StrSliceExecFns;
use crate::matching::{split_by, split_pieces};
use crate::text::push_decimal;
use crate::text::dec_chars;

verus! {

/// The pattern that separates the parts of an uploaded file's path: one backslash.
pub const PATH_SEPARATOR_PATTERN: &'static str = "\\\\";

/// Where the description of the file named `file_name` is kept.
pub fn file_hash_path(file_name: &str) -> (r: String)
    ensures
        r@ == "file_hash/"@ + file_name@ + ".txt"@,
{
    let mut out = String::new();
    out.append("file_hash/");
    out.append(file_name);
    out.append(".txt");
    out
}

/// Where the path of the seeded file `file_hash` is kept.
pub fn files_path_path(file_hash: &str) -> (r: String)
    ensures
        r@ == "files_path/"@ + file_hash@ + ".txt"@,
{
    let mut out = String::new();
    out.append("files_path/");
    out.append(file_hash);
    out.append(".txt");
    out
}

/// Where the piece information of the file `file_hash` is kept.
pub fn piece_info_path(file_hash: &str) -> (r: String)
    ensures
        r@ == "piece_info/"@ + file_hash@ + ".txt"@,
{
    let mut out = String::new();
    out.append("piece_info/");
    out.append(file_hash);
    out.append(".txt");
    out
}

/// The folder that holds the arrived pieces of the file `file_hash`.
pub fn pieces_dir(file_hash: &str) -> (r: String)
    ensures
        r@ == "pieces/"@ + file_hash@,
{
    let mut out = String::new();
    out.append("pieces/");
    out.append(file_hash);
    out
}

/// Where piece `piece_no` of the file `file_hash` is kept.
pub fn piece_file_path(file_hash: &str, piece_no: u64) -> (r: String)
    ensures
        r@ == "pieces/"@ + file_hash@ + "/"@ + dec_chars(piece_no as nat) + ".txt"@,
{
    let mut out = String::new();
    out.append("pieces/");
    out.append(file_hash);
    out.append("/");
    push_decimal(&mut out, piece_no);
    out.append(".txt");
    out
}

/// What is removed when a shared file is deleted: its description, the record of its path,
/// and its piece information.
pub fn delete_file_paths(file_name: &str, file_hash: &str) -> (r: Vec<String>)
    ensures
        r@.len() == 3,
        r@[0]@ == "file_hash/"@ + file_name@ + ".txt"@,
        r@[1]@ == "files_path/"@ + file_hash@ + ".txt"@,
        r@[2]@ == "piece_info/"@ + file_hash@ + ".txt"@,
{
    let mut v: Vec<String> = Vec::new();
    v.push(file_hash_path(file_name));
    v.push(files_path_path(file_hash));
    v.push(piece_info_path(file_hash));
    v
}

/// The file hash named by an entry of the folder of seeded paths: the entry's name without
/// its last four characters (the `.txt`), or empty when it is shorter.
pub fn seeded_file_hash(entry_name: &str) -> (r: String)
    ensures
        r@ == (if entry_name@.len() >= 4 { entry_name@.take(entry_name@.len() - 4) } else { Seq::<char>::empty() }),
{
    let n = entry_name.unicode_len();
    if n >= 4 {
        entry_name.substring_char(0, n - 4).to_owned()
    } else {
        String::new()
    }
}

/// The name of a file from the parts of its path: the last part.
pub fn name_from_parts(parts: &Vec<String>) -> (r: String)
    requires
        parts@.len() >= 1,
    ensures
        r@ == parts.deep_view().last(),
{
    let last = parts.len() - 1;
    assert(parts.deep_view()[last as int] == parts[last as int]@);
    parts[last].clone()
}

/// The name of an uploaded file: the last part of its path when split at backslashes.
pub fn parse_uploaded_file_name(file_path: &str) -> (r: String)
    ensures
        match split_pieces(PATH_SEPARATOR_PATTERN@, file_path@) {
            Some(parts) => r@ == parts.last(),
            None => r@ == Seq::<char>::empty(),
        },
{
    match split_by(PATH_SEPARATOR_PATTERN, file_path) {
        Some(parts) => name_from_parts(&parts),
        None => String::new(),
    }
}

} // verus!
