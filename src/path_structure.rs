//! The fixed locations that the program works with.
use vstd::prelude::*;

verus! {

/// The directory of the project.
pub fn project_dir() -> (r: &'static str)
    ensures
        r@ == "."@,
{
    "."
}

/// The directory of the bundled assets.
pub fn assets_dir() -> (r: &'static str)
    ensures
        r@ == "./assets"@,
{
    "./assets"
}

/// The directory that holds the backup archive.
pub fn backup_dir() -> (r: &'static str)
    ensures
        r@ == "./assets/backup"@,
{
    "./assets/backup"
}

/// The file name of the backup archive.
pub fn language_zip() -> (r: &'static str)
    ensures
        r@ == "language.zip"@,
{
    "language.zip"
}

/// A directory for temporary files.
pub fn temporary_dir() -> (r: &'static str)
    ensures
        r@ == ".temporary"@,
{
    ".temporary"
}

/// The root of the asset tree inside the language archive.
pub fn language_dir() -> (r: &'static str)
    ensures
        r@ == "language"@,
{
    "language"
}

/// The root of the localized subtree, as a path.
pub open spec fn hans_root() -> Seq<char> {
    "language/zh_cn_hans"@
}

/// The root of the localized subtree inside the language archive, lower-cased.
pub fn hans_dir() -> (r: &'static str)
    ensures
        r@ == hans_root(),
{
    "language/zh_cn_hans"
}

/// The data directory of the installation.
pub fn data_dir() -> (r: &'static str)
    ensures
        r@ == "data"@,
{
    "data"
}

/// The installation that receives the files.
pub fn alien_isolation_dir() -> (r: &'static str)
    ensures
        r@ == "/Users/bppleman/Library/Application Support/Steam/steamapps/common/Alien Isolation/AlienIsolationData"@,
{
    "/Users/bppleman/Library/Application Support/Steam/steamapps/common/Alien Isolation/AlienIsolationData"
}

} // verus!
