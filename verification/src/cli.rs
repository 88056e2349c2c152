//! The client-side pieces: the command argument payloads, the client
//! configuration, text wrapping for terminal output, and the check that the
//! local package-manager configuration names the served repository.

use vstd::prelude::*;
use vstd::string::StringExecFns;
use crate::endpoints::Endpoints;
use crate::numbers::nat_to_str;
use crate::strutil::{chars_to_string, str_to_chars};

verus! {

/// Arguments of the add command.
pub struct Add {
    /// The packages to add.
    pub packages: Vec<String>,
}

/// Arguments of the remove command.
pub struct Remove {
    /// The packages to remove.
    pub packages: Vec<String>,
}

/// Arguments of the rebuild command.
pub struct Rebuild {
    /// The packages to rebuild.
    pub packages: Vec<String>,
}

/// Settings relating to the server the client talks to.
pub struct Server {
    /// Address of the server.
    pub address: String,
    /// Port the server is using.
    pub port: u16,
    /// Whether to use HTTPS.
    pub https: bool,
}

/// The client's configuration.
pub struct Config {
    /// Whether the interactive setup has been run.
    pub initialized: bool,
    /// The server to communicate with.
    pub server: Server,
}

impl Server {
    /// The endpoints this server setting points at.
    pub fn to_endpoints(&self) -> (r: Endpoints)
        ensures
            r.address@ == self.address@,
            r.port == self.port,
            r.https == self.https,
    {
        Endpoints { address: self.address.clone(), port: self.port, https: self.https }
    }
}

impl Default for Server {
    /// A local server over plain HTTP on the standard port.
    fn default() -> (r: Server)
        ensures
            r.port == 3200,
            r.address@ == "localhost"@,
            r.https == false,
    {
        Server { port: 3200, address: String::from_str("localhost"), https: false }
    }
}

impl Default for Config {
    /// Not yet initialized, talking to the default server.
    fn default() -> (r: Config)
        ensures
            r.initialized == false,
            r.server.port == 3200,
            r.server.address@ == "localhost"@,
            r.server.https == false,
    {
        Config { initialized: false, server: Server::default() }
    }
}

/// The last space strictly before position `k`, or -1.
pub open spec fn last_space_before(s: Seq<char>, k: int) -> int
    decreases k,
{
    if k <= 0 {
        -1
    } else if s[k - 1] == ' ' {
        k - 1
    } else {
        last_space_before(s, k - 1)
    }
}

/// Where a too-long text is split: after the last space inside the first
/// `max` characters, or at `max` when that window holds no space.
pub open spec fn split_point(s: Seq<char>, max: int) -> int {
    if last_space_before(s, max) >= 0 {
        last_space_before(s, max) + 1
    } else {
        max
    }
}

/// The text with line breaks inserted: any stretch longer than `max` is
/// split at the last space inside its first `max` characters (the space
/// stays at the end of the line), or hard-split at `max` when it has no
/// space there.
pub open spec fn wrap_spec(s: Seq<char>, max: int) -> Seq<char>
    decreases s.len(),
{
    if max < 1 || s.len() <= max {
        s
    } else {
        let sp0 = split_point(s, max);
        let sp = if 1 <= sp0 && sp0 <= max {
            sp0
        } else {
            max
        };
        s.take(sp) + seq!['\n'] + wrap_spec(s.skip(sp), max)
    }
}

/// Wraps `text` at word boundaries so no line runs past `max_length`
/// characters (a single word longer than the limit is hard-split).
pub fn wrap_text(text: &str, max_length: usize) -> (r: String)
    requires
        max_length >= 1,
    ensures
        r@ == wrap_spec(text@, max_length as int),
{
    let chars = str_to_chars(text);
    let mut out: Vec<char> = Vec::new();
    let n = chars.len();
    let mut pos: usize = 0;
    proof {
        assert(text@.skip(0) =~= text@);
    }
    while n - pos > max_length
        invariant
            pos <= n,
            n == text@.len(),
            chars@ == text@,
            max_length >= 1,
            wrap_spec(text@, max_length as int) == out@ + wrap_spec(
                text@.skip(pos as int),
                max_length as int,
            ),
        decreases n - pos,
    {
        let ghost suffix = text@.skip(pos as int);
        let mut k: usize = max_length;
        while k > 0 && chars[pos + k - 1] != ' '
            invariant
                k <= max_length,
                max_length < n - pos,
                pos < n,
                n == text@.len(),
                chars@ == text@,
                suffix == text@.skip(pos as int),
                last_space_before(suffix, max_length as int) == last_space_before(
                    suffix,
                    k as int,
                ),
            decreases k,
        {
            proof {
                assert(suffix[k - 1] == text@[pos + k - 1]);
            }
            k -= 1;
        }
        let sp: usize = if k > 0 {
            k
        } else {
            max_length
        };
        proof {
            if k > 0 {
                assert(suffix[k - 1] == text@[pos + k - 1]);
                assert(last_space_before(suffix, k as int) == k - 1);
            }
            assert(split_point(suffix, max_length as int) == sp as int);
        }
        let ghost oldout = out@;
        let mut j: usize = 0;
        while j < sp
            invariant
                j <= sp,
                pos + sp <= n,
                n == text@.len(),
                chars@ == text@,
                suffix == text@.skip(pos as int),
                out@ =~= oldout + suffix.take(j as int),
            decreases sp - j,
        {
            out.push(chars[pos + j]);
            proof {
                assert(suffix[j as int] == text@[pos + j]);
                assert(out@ =~= oldout + suffix.take(j + 1));
            }
            j += 1;
        }
        out.push('\n');
        proof {
            assert(out@ =~= oldout + (suffix.take(sp as int) + seq!['\n']));
            assert(suffix.skip(sp as int) =~= text@.skip(pos + sp));
            assert(wrap_spec(suffix, max_length as int) == suffix.take(sp as int) + seq!['\n']
                + wrap_spec(suffix.skip(sp as int), max_length as int));
            assert(oldout + (suffix.take(sp as int) + seq!['\n']) + wrap_spec(
                text@.skip(pos + sp),
                max_length as int,
            ) =~= oldout + wrap_spec(suffix, max_length as int));
        }
        pos = pos + sp;
    }
    let ghost oldout = out@;
    let mut j: usize = pos;
    while j < n
        invariant
            pos <= j <= n,
            n == text@.len(),
            chars@ == text@,
            out@ =~= oldout + text@.skip(pos as int).take(j - pos),
        decreases n - j,
    {
        out.push(chars[j]);
        proof {
            assert(text@.skip(pos as int)[j - pos] == text@[j as int]);
            assert(out@ =~= oldout + text@.skip(pos as int).take(j + 1 - pos));
        }
        j += 1;
    }
    proof {
        assert(text@.skip(pos as int).take(n - pos) =~= text@.skip(pos as int));
        assert(wrap_spec(text@.skip(pos as int), max_length as int) == text@.skip(pos as int));
    }
    chars_to_string(&out)
}

/// Whether `d` occurs in `s` as a contiguous run.
pub open spec fn contains_sub(s: Seq<char>, d: Seq<char>) -> bool {
    exists|k: int| 0 <= k <= s.len() - d.len() && #[trigger] s.subrange(k, k + d.len()) == d
}

fn contains_substring(hay: &Vec<char>, needle: &Vec<char>) -> (r: bool)
    ensures
        r == contains_sub(hay@, needle@),
{
    let n = hay.len();
    let m = needle.len();
    if m > n {
        proof {
            if contains_sub(hay@, needle@) {
                let k = choose|k: int|
                    0 <= k <= hay@.len() - needle@.len()
                        && #[trigger] hay@.subrange(k, k + needle@.len()) == needle@;
                assert(false);
            }
        }
        return false;
    }
    if m == 0 {
        proof {
            assert(hay@.subrange(0, 0 + needle@.len() as int) =~= needle@);
        }
        return true;
    }
    let mut k: usize = 0;
    while k <= n - m
        invariant
            m <= n,
            1 <= m,
            k <= n - m + 1,
            n == hay@.len(),
            m == needle@.len(),
            forall|kk: int| 0 <= kk < k ==> #[trigger] hay@.subrange(kk, kk + needle@.len()) != needle@,
        decreases n - m - k + 1,
    {
        let mut j: usize = 0;
        let mut matched = true;
        while j < m
            invariant
                j <= m,
                k + m <= n,
                n == hay@.len(),
                m == needle@.len(),
                matched ==> forall|jj: int| 0 <= jj < j
                    ==> hay@[k + jj] == needle@[jj],
                !matched ==> hay@.subrange(k as int, k + needle@.len()) != needle@,
            decreases m - j,
        {
            if hay[k + j] != needle[j] {
                proof {
                    assert(hay@.subrange(k as int, k + needle@.len())[j as int]
                        != needle@[j as int]);
                }
                matched = false;
                j = m;
            } else {
                j += 1;
            }
        }
        if matched {
            proof {
                assert(hay@.subrange(k as int, k + needle@.len()) =~= needle@);
            }
            return true;
        }
        k += 1;
    }
    proof {
        if contains_sub(hay@, needle@) {
            let kk = choose|kk: int|
                0 <= kk <= hay@.len() - needle@.len()
                    && #[trigger] hay@.subrange(kk, kk + needle@.len()) == needle@;
            assert(hay@.subrange(kk, kk + needle@.len()) != needle@);
        }
    }
    false
}

/// The server line that the local package-manager configuration must hold:
/// the address, the port unless it is the protocol's default, and the
/// repository path.
pub open spec fn repo_directive_spec(address: Seq<char>, port: int, https: bool) -> Seq<char> {
    let port_part: Seq<char> = if (port == 80 && !https) || (port == 443 && https) {
        Seq::empty()
    } else {
        ":"@ + nat_to_str(port)
    };
    address + port_part + "/repo"@
}

/// Builds the directive that `check_for_repository` looks for.
pub fn repo_directive(address: &String, port: u16, https: bool) -> (r: String)
    ensures
        r@ == repo_directive_spec(address@, port as int, https),
{
    let mut r = address.clone();
    if (port == 80 && !https) || (port == 443 && https) {
    } else {
        r.append(":");
        let digits = crate::numbers::u64_to_string(port as u64);
        r.append(chars_to_string(&digits).as_str());
    }
    r.append("/repo");
    proof {
        assert(r@ =~= repo_directive_spec(address@, port as int, https));
    }
    r
}

/// Whether the package-manager configuration text names the served
/// repository: the directive occurs somewhere in it. (The directive holds no
/// newline, so this is the same as some line holding it.)
pub fn check_for_repository(pacman_conf: &str, address: &String, port: u16, https: bool) -> (r:
    bool)
    ensures
        r == contains_sub(pacman_conf@, repo_directive_spec(address@, port as int, https)),
{
    let directive = repo_directive(address, port, https);
    let hay = str_to_chars(pacman_conf);
    let needle = str_to_chars(directive.as_str());
    contains_substring(&hay, &needle)
}

} // verus!
