use vstd::prelude::*;

use vstd::string::StringSliceAdditionalSpecFns;
use vstd::utf8::encode_utf8;

use crate::text::{eq_bytes, str_bytes};

verus! {

/// The envelope the HTTP search and details endpoints serialize.
pub struct RpcResponse<T> {
    pub error: Option<String>,
    pub result_count: usize,
    pub results: Vec<T>,
    pub response_type: String,
    pub version: Option<u32>,
}

/// One package row as the harvester stores it: identity, description and
/// the eight relation lists extracted from its `.SRCINFO`.
pub struct DatabasePackageDetails {
    pub branch: String,
    pub commit_id: String,
    pub committed_at: i64,
    pub pkg_name: String,
    pub pkg_desc: Option<String>,
    pub version: String,
    pub url: Option<String>,
    pub depends: Vec<String>,
    pub make_depends: Vec<String>,
    pub opt_depends: Vec<String>,
    pub check_depends: Vec<String>,
    pub provides: Vec<String>,
    pub conflicts: Vec<String>,
    pub replaces: Vec<String>,
    pub groups: Vec<String>,
}

/// The mathematical value of a package row.
#[verifier::ext_equal]
pub struct DetailsV {
    pub branch: Seq<char>,
    pub commit_id: Seq<char>,
    pub committed_at: i64,
    pub pkg_name: Seq<char>,
    pub pkg_desc: Option<Seq<char>>,
    pub version: Seq<char>,
    pub url: Option<Seq<char>>,
    pub depends: Seq<Seq<char>>,
    pub make_depends: Seq<Seq<char>>,
    pub opt_depends: Seq<Seq<char>>,
    pub check_depends: Seq<Seq<char>>,
    pub provides: Seq<Seq<char>>,
    pub conflicts: Seq<Seq<char>>,
    pub replaces: Seq<Seq<char>>,
    pub groups: Seq<Seq<char>>,
}

/// The view of an optional string.
pub open spec fn opt_str_view(o: Option<String>) -> Option<Seq<char>> {
    match o {
        Some(s) => Some(s@),
        None => None,
    }
}

/// The view of a string list.
pub open spec fn str_list_view(v: Seq<String>) -> Seq<Seq<char>> {
    v.map_values(|s: String| s@)
}

impl View for DatabasePackageDetails {
    type V = DetailsV;

    open spec fn view(&self) -> DetailsV {
        DetailsV {
            branch: self.branch@,
            commit_id: self.commit_id@,
            committed_at: self.committed_at,
            pkg_name: self.pkg_name@,
            pkg_desc: opt_str_view(self.pkg_desc),
            version: self.version@,
            url: opt_str_view(self.url),
            depends: str_list_view(self.depends@),
            make_depends: str_list_view(self.make_depends@),
            opt_depends: str_list_view(self.opt_depends@),
            check_depends: str_list_view(self.check_depends@),
            provides: str_list_view(self.provides@),
            conflicts: str_list_view(self.conflicts@),
            replaces: str_list_view(self.replaces@),
            groups: str_list_view(self.groups@),
        }
    }
}

/// One supplement row: snapshot metadata keyed by package name.  The
/// popularity is carried as the bit pattern of its 64-bit floating-point
/// value; the store never interprets it.
pub struct DatabaseSupplementData {
    pub pkgname: String,
    pub version: String,
    pub popularity: u64,
    pub num_votes: u32,
    pub out_of_date: Option<i64>,
    pub maintainer: Option<String>,
    pub submitter: Option<String>,
    pub co_maintainers: Vec<String>,
    pub keywords: Vec<String>,
    pub first_submitted: i64,
    pub last_modified: i64,
}

/// The mathematical value of a supplement row.
#[verifier::ext_equal]
pub struct SupplementV {
    pub pkgname: Seq<char>,
    pub version: Seq<char>,
    pub popularity: u64,
    pub num_votes: u32,
    pub out_of_date: Option<i64>,
    pub maintainer: Option<Seq<char>>,
    pub submitter: Option<Seq<char>>,
    pub co_maintainers: Seq<Seq<char>>,
    pub keywords: Seq<Seq<char>>,
    pub first_submitted: i64,
    pub last_modified: i64,
}

impl View for DatabaseSupplementData {
    type V = SupplementV;

    open spec fn view(&self) -> SupplementV {
        SupplementV {
            pkgname: self.pkgname@,
            version: self.version@,
            popularity: self.popularity,
            num_votes: self.num_votes,
            out_of_date: self.out_of_date,
            maintainer: opt_str_view(self.maintainer),
            submitter: opt_str_view(self.submitter),
            co_maintainers: str_list_view(self.co_maintainers@),
            keywords: str_list_view(self.keywords@),
            first_submitted: self.first_submitted,
            last_modified: self.last_modified,
        }
    }
}

/// One search result: a package row joined with its supplement, the
/// time-sensitive supplement fields gated on matching versions.
pub struct DatabasePackageInfoWithSupplement {
    pub branch: String,
    pub commit_id: String,
    pub committed_at: i64,
    pub pkg_name: String,
    pub pkg_desc: Option<String>,
    pub version: String,
    pub url: Option<String>,
    pub popularity: Option<u64>,
    pub num_votes: Option<i64>,
    pub out_of_date: Option<i64>,
    pub maintainer: Option<String>,
    pub submitter: Option<String>,
    pub first_submitted: Option<i64>,
    pub last_modified: Option<i64>,
}

/// The mathematical value of a search result.
#[verifier::ext_equal]
pub struct InfoV {
    pub branch: Seq<char>,
    pub commit_id: Seq<char>,
    pub committed_at: i64,
    pub pkg_name: Seq<char>,
    pub pkg_desc: Option<Seq<char>>,
    pub version: Seq<char>,
    pub url: Option<Seq<char>>,
    pub popularity: Option<u64>,
    pub num_votes: Option<i64>,
    pub out_of_date: Option<i64>,
    pub maintainer: Option<Seq<char>>,
    pub submitter: Option<Seq<char>>,
    pub first_submitted: Option<i64>,
    pub last_modified: Option<i64>,
}

impl View for DatabasePackageInfoWithSupplement {
    type V = InfoV;

    open spec fn view(&self) -> InfoV {
        InfoV {
            branch: self.branch@,
            commit_id: self.commit_id@,
            committed_at: self.committed_at,
            pkg_name: self.pkg_name@,
            pkg_desc: opt_str_view(self.pkg_desc),
            version: self.version@,
            url: opt_str_view(self.url),
            popularity: self.popularity,
            num_votes: self.num_votes,
            out_of_date: self.out_of_date,
            maintainer: opt_str_view(self.maintainer),
            submitter: opt_str_view(self.submitter),
            first_submitted: self.first_submitted,
            last_modified: self.last_modified,
        }
    }
}

/// One detail result: the joined row plus the relation lists and the
/// supplement's keyword and co-maintainer lists.
pub struct DatabasePackageDetailsWithSupplement {
    pub info: DatabasePackageInfoWithSupplement,
    pub depends: Vec<String>,
    pub make_depends: Vec<String>,
    pub opt_depends: Vec<String>,
    pub check_depends: Vec<String>,
    pub provides: Vec<String>,
    pub conflicts: Vec<String>,
    pub replaces: Vec<String>,
    pub groups: Vec<String>,
    pub keywords: Vec<String>,
    pub co_maintainers: Vec<String>,
}

/// The mathematical value of a detail result.
#[verifier::ext_equal]
pub struct DetailsWithSupplementV {
    pub info: InfoV,
    pub depends: Seq<Seq<char>>,
    pub make_depends: Seq<Seq<char>>,
    pub opt_depends: Seq<Seq<char>>,
    pub check_depends: Seq<Seq<char>>,
    pub provides: Seq<Seq<char>>,
    pub conflicts: Seq<Seq<char>>,
    pub replaces: Seq<Seq<char>>,
    pub groups: Seq<Seq<char>>,
    pub keywords: Seq<Seq<char>>,
    pub co_maintainers: Seq<Seq<char>>,
}

impl View for DatabasePackageDetailsWithSupplement {
    type V = DetailsWithSupplementV;

    open spec fn view(&self) -> DetailsWithSupplementV {
        DetailsWithSupplementV {
            info: self.info@,
            depends: str_list_view(self.depends@),
            make_depends: str_list_view(self.make_depends@),
            opt_depends: str_list_view(self.opt_depends@),
            check_depends: str_list_view(self.check_depends@),
            provides: str_list_view(self.provides@),
            conflicts: str_list_view(self.conflicts@),
            replaces: str_list_view(self.replaces@),
            groups: str_list_view(self.groups@),
            keywords: str_list_view(self.keywords@),
            co_maintainers: str_list_view(self.co_maintainers@),
        }
    }
}

/// The search modes the store offers.
#[derive(Debug, Clone, Copy, PartialEq, Eq, Structural)]
pub enum SearchType {
    Name,
    NameDesc,
    Depends,
    MakeDepends,
    OptDepends,
    CheckDepends,
}

/// The mode named by a query string, if any.
pub open spec fn search_type_of(s: Seq<char>) -> Option<SearchType> {
    if s == "name"@ {
        Some(SearchType::Name)
    } else if s == "name-desc"@ {
        Some(SearchType::NameDesc)
    } else if s == "depends"@ {
        Some(SearchType::Depends)
    } else if s == "makedepends"@ {
        Some(SearchType::MakeDepends)
    } else if s == "optdepends"@ {
        Some(SearchType::OptDepends)
    } else if s == "checkdepends"@ {
        Some(SearchType::CheckDepends)
    } else {
        None
    }
}

/// Two character sequences with the same UTF-8 encoding are the same.
pub proof fn lemma_encode_utf8_injective(a: Seq<char>, b: Seq<char>)
    requires
        encode_utf8(a) == encode_utf8(b),
    ensures
        a == b,
{
    vstd::utf8::encode_utf8_decode_utf8(a);
    vstd::utf8::encode_utf8_decode_utf8(b);
}

impl SearchType {
    /// The mode named by a query string.
    pub fn from_str(s: &str) -> (r: Option<Self>)
        ensures
            r == search_type_of(s@),
    {
        proof {
            reveal_strlit("name");
            reveal_strlit("name-desc");
            reveal_strlit("depends");
            reveal_strlit("makedepends");
            reveal_strlit("optdepends");
            reveal_strlit("checkdepends");
            assert(vstd::string::is_ascii("name")) by {
                assert forall|i: int| 0 <= i < "name"@.len() implies ("name"@[i] as u32) < 128 by {}
            }
            assert(vstd::string::is_ascii("name-desc")) by {
                assert forall|i: int|
                    0 <= i < "name-desc"@.len() implies ("name-desc"@[i] as u32) < 128 by {}
            }
            assert(vstd::string::is_ascii("depends")) by {
                assert forall|i: int|
                    0 <= i < "depends"@.len() implies ("depends"@[i] as u32) < 128 by {}
            }
            assert(vstd::string::is_ascii("makedepends")) by {
                assert forall|i: int|
                    0 <= i < "makedepends"@.len() implies ("makedepends"@[i] as u32) < 128 by {}
            }
            assert(vstd::string::is_ascii("optdepends")) by {
                assert forall|i: int|
                    0 <= i < "optdepends"@.len() implies ("optdepends"@[i] as u32) < 128 by {}
            }
            assert(vstd::string::is_ascii("checkdepends")) by {
                assert forall|i: int|
                    0 <= i < "checkdepends"@.len() implies ("checkdepends"@[i] as u32) < 128 by {}
            }
        }
        let b = s.as_bytes();
        if Self::lit_eq(b, s, "name") {
            Some(SearchType::Name)
        } else if Self::lit_eq(b, s, "name-desc") {
            Some(SearchType::NameDesc)
        } else if Self::lit_eq(b, s, "depends") {
            Some(SearchType::Depends)
        } else if Self::lit_eq(b, s, "makedepends") {
            Some(SearchType::MakeDepends)
        } else if Self::lit_eq(b, s, "optdepends") {
            Some(SearchType::OptDepends)
        } else if Self::lit_eq(b, s, "checkdepends") {
            Some(SearchType::CheckDepends)
        } else {
            None
        }
    }

    /// Compares the bytes of `s` with a literal's.
    fn lit_eq(b: &[u8], s: &str, lit: &str) -> (r: bool)
        requires
            b@ == encode_utf8(s@),
            vstd::string::is_ascii(lit),
        ensures
            r == (s@ == lit@),
    {
        let r = eq_bytes(b, str_bytes(lit));
        proof {
            if b@ == encode_utf8(lit@) {
                lemma_encode_utf8_injective(s@, lit@);
            }
            vstd::string::is_ascii_spec_bytes(lit);
            assert(crate::text::ascii_bytes(lit@) =~= lit.spec_bytes());
        }
        r
    }
}

} // verus!
