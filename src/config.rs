//! The table of authorized domains and its startup checks.

use vstd::prelude::*;
use vstd::string::StringExecFns;
use vstd::utf8::encode_utf8;
use vstd::string::StringSliceAdditionalSpecFns;
use crate::text::{trim, trim_str, chars_of};
use crate::lines::lines;
use crate::directive::{has_record, has_record_for, has_sole_record, sole_record};

verus! {

/// One authorized domain and the secret key that may update it.
pub struct DomainConfig {
    pub name: String,
    pub key: String,
}

/// The service's configuration: where the resolver's configuration file lies, and
/// which domains may be updated, each with its key.
pub struct Config {
    pub unbound_config_path: String,
    pub domains: Vec<DomainConfig>,
}

/// Whether `s` is empty once white space is trimmed from both ends.
pub open spec fn is_blank(s: Seq<char>) -> bool {
    trim(s).len() == 0
}

/// Whether a domain name is written without a trailing dot.
pub open spec fn is_canonical_name(s: Seq<char>) -> bool {
    !(s.len() > 0 && s.last() == '.')
}

/// The decimal digit `d` as text.
pub open spec fn digit_text(d: nat) -> Seq<char> {
    if d == 0 {
        "0"@
    } else if d == 1 {
        "1"@
    } else if d == 2 {
        "2"@
    } else if d == 3 {
        "3"@
    } else if d == 4 {
        "4"@
    } else if d == 5 {
        "5"@
    } else if d == 6 {
        "6"@
    } else if d == 7 {
        "7"@
    } else if d == 8 {
        "8"@
    } else {
        "9"@
    }
}

/// `n` written in decimal.
pub open spec fn decimal(n: nat) -> Seq<char>
    decreases n,
{
    if n < 10 {
        digit_text(n)
    } else {
        decimal(n / 10) + digit_text(n % 10)
    }
}

pub open spec fn no_domains_message() -> Seq<char> {
    "Configuration must contain at least one domain"@
}

pub open spec fn empty_name_message(index: nat) -> Seq<char> {
    "Domain at index "@ + decimal(index) + " has an empty name"@
}

pub open spec fn empty_key_message(name: Seq<char>) -> Seq<char> {
    "Domain '"@ + name + "' has an empty key"@
}

pub open spec fn trailing_dot_message(name: Seq<char>) -> Seq<char> {
    "Domain '"@ + name + "' must be written without a trailing dot"@
}

pub open spec fn duplicate_message(name: Seq<char>) -> Seq<char> {
    "Duplicate domain '"@ + name + "' found in configuration"@
}

pub open spec fn repeated_record_message(name: Seq<char>, path: Seq<char>) -> Seq<char> {
    "Domain '"@ + name + "' has more than one 'local-data' line in Unbound config file \""@ + path
        + "\"; keep exactly one."@
}

pub open spec fn missing_record_message(name: Seq<char>, path: Seq<char>) -> Seq<char> {
    "Domain '"@ + name + "' not found in Unbound config file. Please add 'local-data: \""@ + name
        + " IN A <ip>\"' to \""@ + path + "\" first."@
}

/// The first fault among the entries from `i` on: an empty name, an empty key, or
/// a name with a trailing dot.
pub open spec fn entry_fault(ds: Seq<DomainConfig>, i: int) -> Option<Seq<char>>
    decreases ds.len() - i,
{
    if i < 0 || i >= ds.len() {
        None
    } else if is_blank(ds[i].name@) {
        Some(empty_name_message(i as nat))
    } else if is_blank(ds[i].key@) {
        Some(empty_key_message(ds[i].name@))
    } else if !is_canonical_name(ds[i].name@) {
        Some(trailing_dot_message(ds[i].name@))
    } else {
        entry_fault(ds, i + 1)
    }
}

/// Whether entry `i`'s name occurs again after it.
pub open spec fn repeated_later(ds: Seq<DomainConfig>, i: int) -> bool {
    exists|j: int| i < j < ds.len() && #[trigger] ds[j].name@ == ds[i].name@
}

/// The first name, from entry `i` on, that a later entry repeats.
pub open spec fn duplicate_fault(ds: Seq<DomainConfig>, i: int) -> Option<Seq<char>>
    decreases ds.len() - i,
{
    if i < 0 || i >= ds.len() {
        None
    } else if repeated_later(ds, i) {
        Some(duplicate_message(ds[i].name@))
    } else {
        duplicate_fault(ds, i + 1)
    }
}

/// The first name, from entry `i` on, that has no directive in the resolver text,
/// or more than one.
pub open spec fn missing_fault(ds: Seq<DomainConfig>, path: Seq<char>, text: Seq<u8>, i: int) -> Option<Seq<char>>
    decreases ds.len() - i,
{
    if i < 0 || i >= ds.len() {
        None
    } else if !has_record_for(lines(text), encode_utf8(ds[i].name@)) {
        Some(missing_record_message(ds[i].name@, path))
    } else if !(exists|k: int| sole_record(lines(text), encode_utf8(ds[i].name@), k)) {
        Some(repeated_record_message(ds[i].name@, path))
    } else {
        missing_fault(ds, path, text, i + 1)
    }
}

/// What is wrong with the entries themselves, if anything: checked in this order,
/// no domains, then each entry, then repeated names.
pub open spec fn entries_fault(ds: Seq<DomainConfig>) -> Option<Seq<char>> {
    if ds.len() == 0 {
        Some(no_domains_message())
    } else if entry_fault(ds, 0) is Some {
        entry_fault(ds, 0)
    } else {
        duplicate_fault(ds, 0)
    }
}

/// What is wrong with a configuration whose resolver file holds `text`, if anything:
/// the fault of the entries, else the first name without a directive.
pub open spec fn config_fault(ds: Seq<DomainConfig>, path: Seq<char>, text: Seq<u8>) -> Option<Seq<char>> {
    if entries_fault(ds) is Some {
        entries_fault(ds)
    } else {
        missing_fault(ds, path, text, 0)
    }
}

/// `n` written in decimal.
pub fn decimal_text(n: usize) -> (r: String)
    ensures
        r@ == decimal(n as nat),
    decreases n,
{
    if n < 10 {
        let d: &str = if n == 0 {
            "0"
        } else if n == 1 {
            "1"
        } else if n == 2 {
            "2"
        } else if n == 3 {
            "3"
        } else if n == 4 {
            "4"
        } else if n == 5 {
            "5"
        } else if n == 6 {
            "6"
        } else if n == 7 {
            "7"
        } else if n == 8 {
            "8"
        } else {
            "9"
        };
        d.to_owned()
    } else {
        let mut s = decimal_text(n / 10);
        let last = decimal_text(n % 10);
        s.append(last.as_str());
        s
    }
}

/// Whether `s` is empty once trimmed.
fn blank_text(s: &String) -> (r: bool)
    ensures
        r == is_blank(s@),
{
    trim_str(s.as_str()).is_empty()
}

/// Whether `s` has no trailing dot.
fn canonical_text(s: &String) -> (r: bool)
    ensures
        r == is_canonical_name(s@),
{
    let cs = chars_of(s.as_str());
    cs.len() == 0 || cs[cs.len() - 1] != '.'
}

fn name_message(before: &str, name: &String, after: &str) -> (r: String)
    ensures
        r@ == before@ + name@ + after@,
{
    let mut m = before.to_owned();
    m.append(name.as_str());
    m.append(after);
    m
}

impl Config {
    /// The checks that need no resolver file: there is at least one domain; each
    /// has a name and a key that are not blank, and a name without a trailing dot;
    /// and no name is given twice. The message names the first fault found.
    pub fn check_entries(&self) -> (r: Result<(), String>)
        ensures
            r is Ok <==> entries_fault(self.domains@) is None,
            r matches Err(m) ==> entries_fault(self.domains@) == Some(m@),
    {
        let ghost ds = self.domains@;
        let n = self.domains.len();
        if n == 0 {
            return Err("Configuration must contain at least one domain".to_owned());
        }
        let mut i: usize = 0;
        while i < n
            invariant
                ds == self.domains@,
                n == ds.len(),
                i <= n,
                entry_fault(ds, 0) == entry_fault(ds, i as int),
            decreases n - i,
        {
            let d = &self.domains[i];
            if blank_text(&d.name) {
                let mut m = "Domain at index ".to_owned();
                let index = decimal_text(i);
                m.append(index.as_str());
                m.append(" has an empty name");
                return Err(m);
            }
            if blank_text(&d.key) {
                return Err(name_message("Domain '", &d.name, "' has an empty key"));
            }
            if !canonical_text(&d.name) {
                return Err(name_message("Domain '", &d.name, "' must be written without a trailing dot"));
            }
            i = i + 1;
        }
        let mut i: usize = 0;
        while i < n
            invariant
                ds == self.domains@,
                n == ds.len(),
                i <= n,
                entry_fault(ds, 0) is None,
                duplicate_fault(ds, 0) == duplicate_fault(ds, i as int),
            decreases n - i,
        {
            let mut j: usize = i + 1;
            while j < n
                invariant
                    ds == self.domains@,
                    n == ds.len(),
                    i < n,
                    i < j <= n,
                    entry_fault(ds, 0) is None,
                    duplicate_fault(ds, 0) == duplicate_fault(ds, i as int),
                    forall|k: int| i < k < j ==> #[trigger] ds[k].name@ != ds[i as int].name@,
                decreases n - j,
            {
                if self.domains[j].name == self.domains[i].name {
                    assert(repeated_later(ds, i as int));
                    return Err(name_message("Duplicate domain '", &self.domains[i].name, "' found in configuration"));
                }
                j = j + 1;
            }
            i = i + 1;
        }
        Ok(())
    }

    /// Checks the configuration against the text of the resolver's configuration
    /// file: the checks of `check_entries`, then that each name has exactly one
    /// directive in the resolver's text. The message names the first fault found.
    pub fn validate(&self, resolver_text: &[u8]) -> (r: Result<(), String>)
        ensures
            r is Ok <==> config_fault(self.domains@, self.unbound_config_path@, resolver_text@) is None,
            r matches Err(m) ==> config_fault(self.domains@, self.unbound_config_path@, resolver_text@)
                == Some(m@),
    {
        let ghost ds = self.domains@;
        let n = self.domains.len();
        match self.check_entries() {
            Err(m) => {
                return Err(m);
            },
            Ok(()) => {},
        }
        let mut i: usize = 0;
        while i < n
            invariant
                ds == self.domains@,
                n == ds.len(),
                i <= n,
                entries_fault(ds) is None,
                missing_fault(ds, self.unbound_config_path@, resolver_text@, 0)
                    == missing_fault(ds, self.unbound_config_path@, resolver_text@, i as int),
            decreases n - i,
        {
            let name = &self.domains[i].name;
            if !has_record(resolver_text, name.as_str()) {
                let mut m = name_message("Domain '", name, "' not found in Unbound config file. Please add 'local-data: \"");
                m.append(name.as_str());
                m.append(" IN A <ip>\"' to \"");
                m.append(self.unbound_config_path.as_str());
                m.append("\" first.");
                return Err(m);
            }
            let nm = name.as_str();
            if !has_sole_record(resolver_text, nm) {
                assert(nm.spec_bytes() == encode_utf8(name@));
                let mut m = name_message("Domain '", name, "' has more than one 'local-data' line in Unbound config file \"");
                m.append(self.unbound_config_path.as_str());
                m.append("\"; keep exactly one.");
                return Err(m);
            }
            i = i + 1;
        }
        Ok(())
    }

    /// The entry whose name is `name`, the first such where there are several.
    pub fn find_domain(&self, name: &str) -> (r: Option<&DomainConfig>)
        ensures
            r matches Some(d) ==> exists|i: int|
                0 <= i < self.domains@.len() && self.domains@[i] == *d && d.name@ == name@
                    && forall|j: int| 0 <= j < i ==> #[trigger] self.domains@[j].name@ != name@,
            r is None ==> forall|i: int|
                0 <= i < self.domains@.len() ==> #[trigger] self.domains@[i].name@ != name@,
    {
        let target = name.to_owned();
        let mut i: usize = 0;
        while i < self.domains.len()
            invariant
                i <= self.domains@.len(),
                target@ == name@,
                forall|j: int| 0 <= j < i ==> #[trigger] self.domains@[j].name@ != name@,
            decreases self.domains@.len() - i,
        {
            if self.domains[i].name == target {
                return Some(&self.domains[i]);
            }
            i = i + 1;
        }
        None
    }
}

} // verus!
