//! Field Renderer: fills named double-curly-brace placeholders (`{{name}}`)
//! from collected metadata.
//!
//! A placeholder name is resolved against the metadata mapping; a referenced
//! name that the mapping lacks is an error, never a silent blank. An opening
//! `{{` that never closes is copied through as literal text.

use vstd::prelude::*;

use crate::ascii::push_all;

verus! {

/// The byte `'{'`.
pub open spec fn brace_open() -> u8 {
    123
}

/// The byte `'}'`.
pub open spec fn brace_close() -> u8 {
    125
}

/// Metadata: named fields collected from an external source, looked up by the
/// renderer. First entry with a given name wins.
pub struct Metadata {
    pub pairs: Vec<(Vec<u8>, Vec<u8>)>,
}

impl View for Metadata {
    type V = Seq<(Seq<u8>, Seq<u8>)>;

    open spec fn view(&self) -> Seq<(Seq<u8>, Seq<u8>)> {
        self.pairs@.map_values(|p: (Vec<u8>, Vec<u8>)| (p.0@, p.1@))
    }
}

impl Metadata {
    /// An empty mapping.
    pub fn new() -> (m: Metadata)
        ensures
            m@ == Seq::<(Seq<u8>, Seq<u8>)>::empty(),
    {
        let m = Metadata { pairs: Vec::new() };
        proof {
            assert(m@ =~= Seq::<(Seq<u8>, Seq<u8>)>::empty());
        }
        m
    }

    /// Add one named field.
    pub fn add_field(&mut self, name: Vec<u8>, value: Vec<u8>)
        ensures
            final(self)@ == old(self)@.push((name@, value@)),
    {
        let ghost pre = self@;
        let ghost n = name@;
        let ghost v = value@;
        self.pairs.push((name, value));
        proof {
            assert(self@ =~= pre.push((n, v)));
        }
    }
}

/// The value bound to `name` in the mapping, if any; the first entry with the
/// name wins.
pub open spec fn lookup(m: Seq<(Seq<u8>, Seq<u8>)>, name: Seq<u8>) -> Option<Seq<u8>>
    decreases m.len(),
{
    if m.len() == 0 {
        None
    } else if m[0].0 == name {
        Some(m[0].1)
    } else {
        lookup(m.skip(1), name)
    }
}

/// Look one field up.
pub fn get_field(m: &Metadata, name: &[u8]) -> (r: Option<Vec<u8>>)
    ensures
        match r {
            Some(v) => lookup(m@, name@) == Some(v@),
            None => lookup(m@, name@) is None,
        },
{
    let mut i: usize = 0;
    proof {
        assert(m@.skip(0) =~= m@);
    }
    while i < m.pairs.len()
        invariant
            i <= m.pairs@.len(),
            m@.len() == m.pairs@.len(),
            lookup(m@, name@) == lookup(m@.skip(i as int), name@),
        decreases m.pairs@.len() - i,
    {
        let ghost sub = m@.skip(i as int);
        if crate::ascii::bytes_eq(m.pairs[i].0.as_slice(), name) {
            let v = crate::ascii::copy_bytes(m.pairs[i].1.as_slice());
            proof {
                assert(sub[0] == m@[i as int]);
                assert(lookup(sub, name@) == Some(m@[i as int].1));
            }
            return Some(v);
        }
        proof {
            assert(sub[0] == m@[i as int]);
            assert(sub.skip(1) =~= m@.skip(i as int + 1));
        }
        i = i + 1;
    }
    proof {
        assert(m@.skip(m@.len() as int) =~= Seq::<(Seq<u8>, Seq<u8>)>::empty());
    }
    None
}

/// The rendering of template `t` against mapping `m`: `None` when a
/// referenced name is missing from the mapping.
pub open spec fn rendered(t: Seq<u8>, m: Seq<(Seq<u8>, Seq<u8>)>) -> Option<Seq<u8>>
    decreases t.len(), 1int,
{
    if t.len() >= 2 && t[0] == brace_open() && t[1] == brace_open() {
        in_placeholder(t.skip(2), Seq::empty(), m)
    } else if t.len() == 0 {
        Some(Seq::empty())
    } else {
        match rendered(t.skip(1), m) {
            None => None,
            Some(r) => Some(seq![t[0]] + r),
        }
    }
}

/// The rendering of the rest of a template after `{{` and the placeholder
/// name bytes `name`: on `}}` the name is resolved; with no closing `}}` the
/// opening brace and the name are literal text.
pub open spec fn in_placeholder(t: Seq<u8>, name: Seq<u8>, m: Seq<(Seq<u8>, Seq<u8>)>) -> Option<
    Seq<u8>,
>
    decreases t.len(), 0int,
{
    if t.len() >= 2 && t[0] == brace_close() && t[1] == brace_close() {
        match lookup(m, name) {
            None => None,
            Some(v) => match rendered(t.skip(2), m) {
                None => None,
                Some(r) => Some(v + r),
            },
        }
    } else if t.len() == 0 {
        Some(seq![brace_open(), brace_open()] + name)
    } else {
        in_placeholder(t.skip(1), name.push(t[0]), m)
    }
}

/// Prefix an optional rendering with already-rendered bytes.
pub open spec fn opt_prepend(pre: Seq<u8>, r: Option<Seq<u8>>) -> Option<Seq<u8>> {
    match r {
        None => None,
        Some(x) => Some(pre + x),
    }
}

/// Render template `t` against metadata `m`. `None` exactly when the template
/// references a name missing from the mapping.
pub fn render(t: &[u8], m: &Metadata) -> (r: Option<Vec<u8>>)
    ensures
        match r {
            Some(v) => rendered(t@, m@) == Some(v@),
            None => rendered(t@, m@) is None,
        },
{
    let mut out: Vec<u8> = Vec::new();
    let mut i: usize = 0;
    proof {
        assert(t@.skip(0) =~= t@);
        assert(opt_prepend(out@, rendered(t@, m@)) == rendered(t@, m@)) by {
            if rendered(t@, m@) is Some {
                assert(out@ + rendered(t@, m@)->0 =~= rendered(t@, m@)->0);
            }
        }
    }
    while i < t.len()
        invariant
            i <= t@.len(),
            t@.len() == t.len(),
            rendered(t@, m@) == opt_prepend(out@, rendered(t@.skip(i as int), m@)),
        decreases t@.len() - i,
    {
        let ghost sub = t@.skip(i as int);
        let ghost pre = out@;
        if i + 1 < t.len() && t[i] == 123 && t[i + 1] == 123 {
            let mut name: Vec<u8> = Vec::new();
            let mut j: usize = i + 2;
            proof {
                assert(sub.len() >= 2 && sub[0] == brace_open() && sub[1] == brace_open());
                assert(sub.skip(2) =~= t@.skip(i as int + 2));
                assert(name@ =~= Seq::<u8>::empty());
                assert(rendered(sub, m@) == in_placeholder(t@.skip(i as int + 2), name@, m@));
            }
            while j < t.len() && !(j + 1 < t.len() && t[j] == 125 && t[j + 1] == 125)
                invariant
                    i + 2 <= j <= t@.len(),
                    t@.len() == t.len(),
                    rendered(t@, m@) == opt_prepend(out@, in_placeholder(t@.skip(j as int), name@, m@)),
                decreases t@.len() - j,
            {
                let ghost psub = t@.skip(j as int);
                let ghost pname = name@;
                proof {
                    assert(psub.len() > 0);
                    assert(psub[0] == t@[j as int]);
                    if psub.len() >= 2 {
                        assert(psub[1] == t@[j as int + 1]);
                    }
                    assert(!(psub.len() >= 2 && psub[0] == brace_close() && psub[1]
                        == brace_close()));
                    assert(in_placeholder(psub, pname, m@) == in_placeholder(
                        psub.skip(1),
                        pname.push(t@[j as int]),
                        m@,
                    ));
                    assert(psub.skip(1) =~= t@.skip(j as int + 1));
                }
                name.push(t[j]);
                j = j + 1;
            }
            if j >= t.len() {
                // no closing `}}`: the opening brace and the name are literal
                let ghost pname = name@;
                proof {
                    assert(j == t@.len());
                    assert(t@.skip(j as int) =~= Seq::<u8>::empty());
                    assert(in_placeholder(Seq::empty(), pname, m@) == Some(
                        seq![brace_open(), brace_open()] + pname,
                    ));
                }
                out.push(123);
                out.push(123);
                push_all(&mut out, name.as_slice());
                i = j;
                proof {
                    assert(rendered(t@.skip(i as int), m@) == Some(Seq::<u8>::empty()));
                    assert(pre + (seq![brace_open(), brace_open()] + pname) =~= out@
                        + Seq::<u8>::empty());
                }
            } else {
                // `}}` at j: resolve the name
                let ghost psub = t@.skip(j as int);
                let ghost pname = name@;
                proof {
                    assert(psub.len() >= 2 && psub[0] == brace_close() && psub[1] == brace_close());
                    assert(psub.skip(2) =~= t@.skip(j as int + 2));
                }
                match get_field(m, name.as_slice()) {
                    None => {
                        proof {
                            assert(in_placeholder(psub, pname, m@) is None);
                        }
                        return None;
                    },
                    Some(v) => {
                        push_all(&mut out, v.as_slice());
                        i = j + 2;
                        proof {
                            let rest = rendered(t@.skip(j as int + 2), m@);
                            assert(in_placeholder(psub, pname, m@) == match rest {
                                None => None::<Seq<u8>>,
                                Some(r) => Some(v@ + r),
                            });
                            if rest is Some {
                                assert(pre + (v@ + rest->0) =~= out@ + rest->0);
                            }
                        }
                    },
                }
            }
        } else {
            proof {
                assert(sub.len() > 0);
                assert(sub[0] == t@[i as int]);
                if sub.len() >= 2 {
                    assert(sub[1] == t@[i as int + 1]);
                }
                assert(!(sub.len() >= 2 && sub[0] == brace_open() && sub[1] == brace_open()));
                let rest = rendered(t@.skip(i as int + 1), m@);
                assert(sub.skip(1) =~= t@.skip(i as int + 1));
                assert(rendered(sub, m@) == match rest {
                    None => None::<Seq<u8>>,
                    Some(r) => Some(seq![t@[i as int]] + r),
                });
                if rest is Some {
                    assert(pre + (seq![t@[i as int]] + rest->0) =~= pre.push(t@[i as int])
                        + rest->0);
                }
            }
            out.push(t[i]);
            i = i + 1;
        }
    }
    proof {
        assert(t@.skip(t@.len() as int) =~= Seq::<u8>::empty());
        assert(out@ + Seq::<u8>::empty() =~= out@);
    }
    Some(out)
}

/// The `description` field name.
pub open spec fn key_description() -> Seq<u8> {
    seq![100u8, 101u8, 115u8, 99u8, 114u8, 105u8, 112u8, 116u8, 105u8, 111u8, 110u8]
}

/// The `description` field name, as bytes.
pub fn key_description_bytes() -> (r: Vec<u8>)
    ensures
        r@ == key_description(),
{
    let r: Vec<u8> = vec![100u8, 101u8, 115u8, 99u8, 114u8, 105u8, 112u8, 116u8, 105u8, 111u8, 110u8];
    proof {
        assert(r@ =~= key_description());
    }
    r
}

/// The `firstName` field name.
pub open spec fn key_first_name() -> Seq<u8> {
    seq![102u8, 105u8, 114u8, 115u8, 116u8, 78u8, 97u8, 109u8, 101u8]
}

/// The `firstName` field name, as bytes.
pub fn key_first_name_bytes() -> (r: Vec<u8>)
    ensures
        r@ == key_first_name(),
{
    let r: Vec<u8> = vec![102u8, 105u8, 114u8, 115u8, 116u8, 78u8, 97u8, 109u8, 101u8];
    proof {
        assert(r@ =~= key_first_name());
    }
    r
}

/// The `lastName` field name.
pub open spec fn key_last_name() -> Seq<u8> {
    seq![108u8, 97u8, 115u8, 116u8, 78u8, 97u8, 109u8, 101u8]
}

/// The `lastName` field name, as bytes.
pub fn key_last_name_bytes() -> (r: Vec<u8>)
    ensures
        r@ == key_last_name(),
{
    let r: Vec<u8> = vec![108u8, 97u8, 115u8, 116u8, 78u8, 97u8, 109u8, 101u8];
    proof {
        assert(r@ =~= key_last_name());
    }
    r
}

/// The `email` field name.
pub open spec fn key_email() -> Seq<u8> {
    seq![101u8, 109u8, 97u8, 105u8, 108u8]
}

/// The `email` field name, as bytes.
pub fn key_email_bytes() -> (r: Vec<u8>)
    ensures
        r@ == key_email(),
{
    let r: Vec<u8> = vec![101u8, 109u8, 97u8, 105u8, 108u8];
    proof {
        assert(r@ =~= key_email());
    }
    r
}

/// The `alias` field name.
pub open spec fn key_alias() -> Seq<u8> {
    seq![97u8, 108u8, 105u8, 97u8, 115u8]
}

/// The `alias` field name, as bytes.
pub fn key_alias_bytes() -> (r: Vec<u8>)
    ensures
        r@ == key_alias(),
{
    let r: Vec<u8> = vec![97u8, 108u8, 105u8, 97u8, 115u8];
    proof {
        assert(r@ =~= key_alias());
    }
    r
}

/// The `title` field name.
pub open spec fn key_title() -> Seq<u8> {
    seq![116u8, 105u8, 116u8, 108u8, 101u8]
}

/// The `title` field name, as bytes.
pub fn key_title_bytes() -> (r: Vec<u8>)
    ensures
        r@ == key_title(),
{
    let r: Vec<u8> = vec![116u8, 105u8, 116u8, 108u8, 101u8];
    proof {
        assert(r@ =~= key_title());
    }
    r
}

/// The `projectName` field name.
pub open spec fn key_project_name() -> Seq<u8> {
    seq![112u8, 114u8, 111u8, 106u8, 101u8, 99u8, 116u8, 78u8, 97u8, 109u8, 101u8]
}

/// The `projectName` field name, as bytes.
pub fn key_project_name_bytes() -> (r: Vec<u8>)
    ensures
        r@ == key_project_name(),
{
    let r: Vec<u8> = vec![112u8, 114u8, 111u8, 106u8, 101u8, 99u8, 116u8, 78u8, 97u8, 109u8, 101u8];
    proof {
        assert(r@ =~= key_project_name());
    }
    r
}

/// The metadata the manifest template is rendered with: the five prompted
/// fields under their placeholder names.
pub open spec fn manifest_metadata_spec(
    description: Seq<u8>,
    first_name: Seq<u8>,
    last_name: Seq<u8>,
    email: Seq<u8>,
    alias: Seq<u8>,
) -> Seq<(Seq<u8>, Seq<u8>)> {
    seq![
        (key_description(), description),
        (key_first_name(), first_name),
        (key_last_name(), last_name),
        (key_email(), email),
        (key_alias(), alias),
    ]
}

/// Assemble the manifest metadata from the five prompted fields.
pub fn manifest_metadata(
    description: &[u8],
    first_name: &[u8],
    last_name: &[u8],
    email: &[u8],
    alias: &[u8],
) -> (m: Metadata)
    ensures
        m@ == manifest_metadata_spec(description@, first_name@, last_name@, email@, alias@),
{
    let mut m = Metadata::new();
    m.add_field(key_description_bytes(), crate::ascii::copy_bytes(description));
    m.add_field(key_first_name_bytes(), crate::ascii::copy_bytes(first_name));
    m.add_field(key_last_name_bytes(), crate::ascii::copy_bytes(last_name));
    m.add_field(key_email_bytes(), crate::ascii::copy_bytes(email));
    m.add_field(key_alias_bytes(), crate::ascii::copy_bytes(alias));
    proof {
        assert(m@ =~= manifest_metadata_spec(
            description@,
            first_name@,
            last_name@,
            email@,
            alias@,
        ));
    }
    m
}

/// The metadata the readme template is rendered with: the derived title and
/// snake-case name beside the prompted alias and description.
pub open spec fn readme_metadata_spec(
    title: Seq<u8>,
    alias: Seq<u8>,
    project_name: Seq<u8>,
    description: Seq<u8>,
) -> Seq<(Seq<u8>, Seq<u8>)> {
    seq![
        (key_title(), title),
        (key_alias(), alias),
        (key_project_name(), project_name),
        (key_description(), description),
    ]
}

/// Assemble the readme metadata from the derived forms, the alias and the
/// description.
pub fn readme_metadata(
    title: &[u8],
    alias: &[u8],
    project_name: &[u8],
    description: &[u8],
) -> (m: Metadata)
    ensures
        m@ == readme_metadata_spec(title@, alias@, project_name@, description@),
{
    let mut m = Metadata::new();
    m.add_field(key_title_bytes(), crate::ascii::copy_bytes(title));
    m.add_field(key_alias_bytes(), crate::ascii::copy_bytes(alias));
    m.add_field(key_project_name_bytes(), crate::ascii::copy_bytes(project_name));
    m.add_field(key_description_bytes(), crate::ascii::copy_bytes(description));
    proof {
        assert(m@ =~= readme_metadata_spec(title@, alias@, project_name@, description@));
    }
    m
}

/// The placeholder names a template references, in order of appearance.
pub open spec fn refs(t: Seq<u8>) -> Seq<Seq<u8>>
    decreases t.len(), 1int,
{
    if t.len() >= 2 && t[0] == brace_open() && t[1] == brace_open() {
        refs_in_placeholder(t.skip(2), Seq::empty())
    } else if t.len() == 0 {
        Seq::empty()
    } else {
        refs(t.skip(1))
    }
}

/// The placeholder names referenced after an opening `{{` whose name so far
/// is `name`: an unterminated placeholder is literal text and references
/// nothing.
pub open spec fn refs_in_placeholder(t: Seq<u8>, name: Seq<u8>) -> Seq<Seq<u8>>
    decreases t.len(), 0int,
{
    if t.len() >= 2 && t[0] == brace_close() && t[1] == brace_close() {
        seq![name] + refs(t.skip(2))
    } else if t.len() == 0 {
        Seq::empty()
    } else {
        refs_in_placeholder(t.skip(1), name.push(t[0]))
    }
}

/// Rendering fails exactly when the template references a name missing from
/// the mapping; with every referenced name present the rendering succeeds,
/// and it is a function of the template and the mapping alone.
pub proof fn lemma_rendered_missing_field(t: Seq<u8>, m: Seq<(Seq<u8>, Seq<u8>)>)
    ensures
        (rendered(t, m) is None) <==> exists|i: int|
            0 <= i < refs(t).len() && lookup(m, #[trigger] refs(t)[i]) is None,
    decreases t.len(), 1int,
{
    if t.len() >= 2 && t[0] == brace_open() && t[1] == brace_open() {
        lemma_in_placeholder_missing_field(t.skip(2), Seq::empty(), m);
    } else if t.len() == 0 {
    } else {
        lemma_rendered_missing_field(t.skip(1), m);
    }
}

/// The placeholder-scanning half of `lemma_rendered_missing_field`.
pub proof fn lemma_in_placeholder_missing_field(
    t: Seq<u8>,
    name: Seq<u8>,
    m: Seq<(Seq<u8>, Seq<u8>)>,
)
    ensures
        (in_placeholder(t, name, m) is None) <==> exists|i: int|
            0 <= i < refs_in_placeholder(t, name).len() && lookup(
                m,
                #[trigger] refs_in_placeholder(t, name)[i],
            ) is None,
    decreases t.len(), 0int,
{
    let rs = refs_in_placeholder(t, name);
    if t.len() >= 2 && t[0] == brace_close() && t[1] == brace_close() {
        lemma_rendered_missing_field(t.skip(2), m);
        assert(rs == seq![name] + refs(t.skip(2)));
        assert(rs[0] == name);
        if lookup(m, name) is None {
            assert(0 <= 0 < rs.len() && lookup(m, rs[0]) is None);
        } else if rendered(t.skip(2), m) is None {
            let i = choose|i: int|
                0 <= i < refs(t.skip(2)).len() && lookup(m, #[trigger] refs(t.skip(2))[i]) is None;
            assert(rs[i + 1] == refs(t.skip(2))[i]);
            assert(lookup(m, rs[i + 1]) is None);
        } else {
            assert forall|i: int| 0 <= i < rs.len() implies lookup(m, #[trigger] rs[i]) is Some by {
                if i > 0 {
                    assert(rs[i] == refs(t.skip(2))[i - 1]);
                }
            }
        }
    } else if t.len() == 0 {
    } else {
        lemma_in_placeholder_missing_field(t.skip(1), name.push(t[0]), m);
    }
}

} // verus!
