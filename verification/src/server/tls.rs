//! Which certificates and which private key of PEM files a TLS server takes.

use crate::text;
use vstd::prelude::*;

verus! {

/// The DER contents of some PEM sections.
pub open spec fn ders(l: Seq<Vec<u8>>) -> Seq<Seq<u8>> {
    Seq::new(l.len(), |i: int| l[i]@)
}

/// The certificates in a PEM file, or why it cannot be read.
pub uninterp spec fn pem_certs(bytes: Seq<u8>) -> Result<Seq<Seq<u8>>, Seq<char>>;

/// The PKCS#8 keys in a PEM file, or why it cannot be read.
pub uninterp spec fn pem_pkcs8(bytes: Seq<u8>) -> Result<Seq<Seq<u8>>, Seq<char>>;

/// The SEC1 keys in a PEM file, or why it cannot be read.
pub uninterp spec fn pem_sec1(bytes: Seq<u8>) -> Result<Seq<Seq<u8>>, Seq<char>>;

/// The PKCS#1 keys in a PEM file, or why it cannot be read.
pub uninterp spec fn pem_rsa(bytes: Seq<u8>) -> Result<Seq<Seq<u8>>, Seq<char>>;

/// Does a call agree with its name?
pub open spec fn agrees(r: Result<Vec<Vec<u8>>, String>, want: Result<Seq<Seq<u8>>, Seq<char>>) -> bool {
    match want {
        Ok(l) => r matches Ok(v) && ders(v@) == l,
        Err(m) => r matches Err(e) && e@ == m,
    }
}

/// `rustls_pemfile::certs`: the DER contents of the certificates; it depends on the
/// bytes alone. How PEM is read is left unsaid.
#[verifier::external_body]
fn read_certs(bytes: &[u8]) -> (r: Result<Vec<Vec<u8>>, String>)
    ensures
        agrees(r, pem_certs(bytes@)),
{
    let mut rd = bytes;
    rustls_pemfile::certs(&mut rd).map_err(|e| e.to_string())
}

/// `rustls_pemfile::pkcs8_private_keys`: the DER contents of the PKCS#8 keys; it depends
/// on the bytes alone. How PEM is read is left unsaid.
#[verifier::external_body]
fn read_pkcs8(bytes: &[u8]) -> (r: Result<Vec<Vec<u8>>, String>)
    ensures
        agrees(r, pem_pkcs8(bytes@)),
{
    let mut rd = bytes;
    rustls_pemfile::pkcs8_private_keys(&mut rd).map_err(|e| e.to_string())
}

/// `rustls_pemfile::ec_private_keys`: the DER contents of the SEC1 keys; it depends on
/// the bytes alone. How PEM is read is left unsaid.
#[verifier::external_body]
fn read_sec1(bytes: &[u8]) -> (r: Result<Vec<Vec<u8>>, String>)
    ensures
        agrees(r, pem_sec1(bytes@)),
{
    let mut rd = bytes;
    rustls_pemfile::ec_private_keys(&mut rd).map_err(|e| e.to_string())
}

/// `rustls_pemfile::rsa_private_keys`: the DER contents of the PKCS#1 keys; it depends on
/// the bytes alone. How PEM is read is left unsaid.
#[verifier::external_body]
fn read_rsa(bytes: &[u8]) -> (r: Result<Vec<Vec<u8>>, String>)
    ensures
        agrees(r, pem_rsa(bytes@)),
{
    let mut rd = bytes;
    rustls_pemfile::rsa_private_keys(&mut rd).map_err(|e| e.to_string())
}

/// The certificates of a file: there has to be one.
pub open spec fn certs_in(path: Seq<char>, read: Result<Seq<Seq<u8>>, Seq<char>>) -> Result<Seq<Seq<u8>>, Seq<char>> {
    match read {
        Err(e) => Err("tls: read certs from "@ + path + ": "@ + e),
        Ok(l) => if l.len() == 0 {
            Err("tls: no certificates in "@ + path)
        } else {
            Ok(l)
        },
    }
}

/// The certificates that were read: there has to be one.
pub fn check_certs(path: &str, read: Result<Vec<Vec<u8>>, String>) -> (r: Result<Vec<Vec<u8>>, String>)
    ensures
        forall|want: Result<Seq<Seq<u8>>, Seq<char>>|
            agrees(read, want) ==> agrees(r, #[trigger] certs_in(path@, want)),
{
    match read {
        Err(e) => {
            let mut m = text::join3("tls: read certs from ", path, ": ");
            m.push_str(e.as_str());
            Err(m)
        },
        Ok(l) => {
            assert(ders(l@).len() == l@.len());
            if l.len() == 0 {
                Err(text::join2("tls: no certificates in ", path))
            } else {
                Ok(l)
            }
        },
    }
}

/// The certificate chain in a PEM file.
pub fn load_certs(path: &str, bytes: &[u8]) -> (r: Result<Vec<Vec<u8>>, String>)
    ensures
        agrees(r, certs_in(path@, pem_certs(bytes@))),
{
    let read = read_certs(bytes);
    check_certs(path, read)
}

/// The form of a private key.
#[derive(Debug, Clone, Copy, PartialEq, Eq, Structural)]
pub enum KeyForm {
    Pkcs8,
    Sec1,
    Rsa,
}

/// The name of a form.
pub open spec fn form_name(f: KeyForm) -> Seq<char> {
    match f {
        KeyForm::Pkcs8 => "pkcs8"@,
        KeyForm::Sec1 => "sec1"@,
        KeyForm::Rsa => "rsa"@,
    }
}

/// The first key of a form, or none of that form, or why the file cannot be read.
pub open spec fn first_of(f: KeyForm, read: Result<Seq<Seq<u8>>, Seq<char>>) -> Result<Option<Seq<u8>>, Seq<char>> {
    match read {
        Err(e) => Err("tls: parse "@ + form_name(f) + " key: "@ + e),
        Ok(l) => if l.len() == 0 {
            Ok(None)
        } else {
            Ok(Some(l[0]))
        },
    }
}

/// The key that is taken: the first PKCS#8 one, else the first SEC1 one, else the first
/// PKCS#1 one.
pub open spec fn key_in(
    path: Seq<char>,
    pkcs8: Result<Seq<Seq<u8>>, Seq<char>>,
    sec1: Result<Seq<Seq<u8>>, Seq<char>>,
    rsa: Result<Seq<Seq<u8>>, Seq<char>>,
) -> Result<(KeyForm, Seq<u8>), Seq<char>> {
    match first_of(KeyForm::Pkcs8, pkcs8) {
        Err(e) => Err(e),
        Ok(Some(k)) => Ok((KeyForm::Pkcs8, k)),
        Ok(None) => match first_of(KeyForm::Sec1, sec1) {
            Err(e) => Err(e),
            Ok(Some(k)) => Ok((KeyForm::Sec1, k)),
            Ok(None) => match first_of(KeyForm::Rsa, rsa) {
                Err(e) => Err(e),
                Ok(Some(k)) => Ok((KeyForm::Rsa, k)),
                Ok(None) => Err("tls: no PKCS#8 / SEC1 / PKCS#1 private key found in "@ + path),
            },
        },
    }
}

/// The first key of a form among those that were read.
pub fn first_key_der(f: KeyForm, read: Result<Vec<Vec<u8>>, String>) -> (r: Result<Option<Vec<u8>>, String>)
    ensures
        forall|want: Result<Seq<Seq<u8>>, Seq<char>>|
            agrees(read, want) ==> match #[trigger] first_of(f, want) {
                Ok(Some(k)) => r matches Ok(Some(b)) && b@ == k,
                Ok(None) => r matches Ok(None),
                Err(m) => r matches Err(e) && e@ == m,
            },
{
    match read {
        Err(e) => {
            let name = match f {
                KeyForm::Pkcs8 => "pkcs8",
                KeyForm::Sec1 => "sec1",
                KeyForm::Rsa => "rsa",
            };
            let mut m = text::join3("tls: parse ", name, " key: ");
            m.push_str(e.as_str());
            Err(m)
        },
        Ok(l) => {
            assert(ders(l@).len() == l@.len());
            if l.len() == 0 {
                Ok(None)
            } else {
                assert(ders(l@)[0] == l@[0]@);
                Ok(Some(l[0].clone()))
            }
        },
    }
}

/// The private key in a PEM file: PKCS#8, then SEC1, then PKCS#1.
pub fn load_key(path: &str, bytes: &[u8]) -> (r: Result<(KeyForm, Vec<u8>), String>)
    ensures
        match key_in(path@, pem_pkcs8(bytes@), pem_sec1(bytes@), pem_rsa(bytes@)) {
            Ok(k) => r matches Ok((f, b)) && f == k.0 && b@ == k.1,
            Err(m) => r matches Err(e) && e@ == m,
        },
{
    let first = first_key_der(KeyForm::Pkcs8, read_pkcs8(bytes));
    assert(first_of(KeyForm::Pkcs8, pem_pkcs8(bytes@)) == first_of(KeyForm::Pkcs8, pem_pkcs8(bytes@)));
    match first {
        Err(e) => {
            return Err(e);
        },
        Ok(Some(k)) => {
            return Ok((KeyForm::Pkcs8, k));
        },
        Ok(None) => {},
    }
    let second = first_key_der(KeyForm::Sec1, read_sec1(bytes));
    assert(first_of(KeyForm::Sec1, pem_sec1(bytes@)) == first_of(KeyForm::Sec1, pem_sec1(bytes@)));
    match second {
        Err(e) => {
            return Err(e);
        },
        Ok(Some(k)) => {
            return Ok((KeyForm::Sec1, k));
        },
        Ok(None) => {},
    }
    let third = first_key_der(KeyForm::Rsa, read_rsa(bytes));
    assert(first_of(KeyForm::Rsa, pem_rsa(bytes@)) == first_of(KeyForm::Rsa, pem_rsa(bytes@)));
    match third {
        Err(e) => Err(e),
        Ok(Some(k)) => Ok((KeyForm::Rsa, k)),
        Ok(None) => Err(text::join2("tls: no PKCS#8 / SEC1 / PKCS#1 private key found in ", path)),
    }
}

// ---------- laws ----------

/// All certificates are taken, in their order, and there has to be one; of the keys the
/// first PKCS#8 one is taken, where there is none the first SEC1 one, and where there is
/// none of those either the first PKCS#1 one. A file that cannot be read gives neither.
pub proof fn law_first_key_is_taken(
    path: Seq<char>,
    certs: Seq<Seq<u8>>,
    a: Seq<Seq<u8>>,
    b: Seq<Seq<u8>>,
    c: Seq<Seq<u8>>,
    e: Seq<char>,
)
    ensures
        certs_in(path, Ok(certs)) == Ok::<Seq<Seq<u8>>, Seq<char>>(certs) <==> certs.len() > 0,
        certs_in(path, Ok(certs)) is Err <==> certs.len() == 0,
        certs_in(path, Err(e)) is Err,
        a.len() > 0 ==> key_in(path, Ok(a), Ok(b), Ok(c)) == Ok::<(KeyForm, Seq<u8>), Seq<char>>((KeyForm::Pkcs8, a[0])),
        a.len() == 0 && b.len() > 0 ==> key_in(path, Ok(a), Ok(b), Ok(c)) == Ok::<(KeyForm, Seq<u8>), Seq<char>>(
            (KeyForm::Sec1, b[0]),
        ),
        a.len() == 0 && b.len() == 0 && c.len() > 0 ==> key_in(path, Ok(a), Ok(b), Ok(c)) == Ok::<
            (KeyForm, Seq<u8>),
            Seq<char>,
        >((KeyForm::Rsa, c[0])),
        a.len() == 0 && b.len() == 0 && c.len() == 0 ==> key_in(path, Ok(a), Ok(b), Ok(c)) is Err,
        key_in(path, Err(e), Ok(b), Ok(c)) is Err,
{
}

} // verus!
