//! The prompt service: the facade a transport talks to.
//!
//! It owns the discovered libraries and offers the two operations the
//! outside world sees: enumerate every prompt under its qualified
//! `<library>:<prompt>` name, and resolve one qualified name to its
//! definition so the caller can fetch the content file and render it.
//! A name without the two-part shape resolves to nothing; listing
//! never fails — no libraries simply means an empty listing.

use vstd::prelude::*;
use vstd::string::*;
use crate::library::{
    args_view, clone_definition, ArgModel, LibModel, libs_view, PromptArgument, PromptDefinition,
    PromptLibrary,
};
use crate::renderer::{first_missing, render_checked, render_spec};
use crate::text::{chars_to_string, copy_range, find_char, find_char_vec, str_eq, str_to_chars};
use crate::types::PromptError;
use crate::value::PromptArgs;

verus! {

/// The two parts of a qualified `<library>:<prompt>` name, if it has
/// exactly that shape: one colon, splitting it in two.
pub open spec fn qualified_parts(q: Seq<char>) -> Option<(Seq<char>, Seq<char>)> {
    match find_char(q, ':') {
        None => None,
        Some(i) => if 0 <= i < q.len() {
            let pr = q.skip(i + 1);
            if find_char(pr, ':') is None {
                Some((q.take(i), pr))
            } else {
                None
            }
        } else {
            None
        },
    }
}

/// Split a qualified name into its library and prompt parts.
pub fn split_qualified(name: &str) -> (r: Option<(String, String)>)
    ensures
        match r {
            Some(p) => qualified_parts(name@) == Some((p.0@, p.1@)),
            None => qualified_parts(name@) is None,
        },
{
    let v = str_to_chars(name);
    match find_char_vec(&v, ':') {
        None => None,
        Some(i) => {
            let n = v.len();
            let lib = copy_range(&v, 0, i);
            let pr = copy_range(&v, i + 1, n);
            proof {
                assert(lib@ =~= v@.take(i as int));
                assert(pr@ =~= v@.skip(i as int + 1));
            }
            match find_char_vec(&pr, ':') {
                Some(_) => None,
                None => Some((chars_to_string(&lib), chars_to_string(&pr))),
            }
        },
    }
}

/// A resolved prompt: its bare name, its definition (a copy), and the
/// root directory of the library it came from, where the caller finds
/// its content file.
pub struct FoundPrompt {
    pub prompt_name: String,
    pub definition: PromptDefinition,
    pub library_path: String,
}

/// The service. It is constructed once, from whatever discovery found,
/// and injected into the transport layer.
pub struct PromptService {
    pub libraries: Vec<PromptLibrary>,
}

impl PromptService {
    /// A service over the given libraries.
    pub fn new(libraries: Vec<PromptLibrary>) -> (r: PromptService)
        ensures
            r.libraries == libraries,
    {
        PromptService { libraries }
    }

    /// Resolve a qualified name: split it, then take the first library
    /// of that identifier that declares the prompt. `None` when the
    /// name is not two-part, or nothing matches.
    pub fn find_prompt(&self, name: &str) -> (r: Option<FoundPrompt>)
        ensures
            match qualified_parts(name@) {
                None => r is None,
                Some(parts) => match r {
                    Some(f) => f.prompt_name@ == parts.1 && exists|i: int|
                        0 <= i < self.libraries@.len() && (#[trigger] self.libraries@[i]).name@
                            == parts.0 && self.libraries@[i].config.spec_contains(parts.1)
                            && f.library_path@ == self.libraries@[i].path@ && exists|j: int|
                            0 <= j < self.libraries@[i].config.prompts@.len() && (
                            #[trigger] self.libraries@[i].config.prompts@[j]).0@ == parts.1
                                && f.definition@ == self.libraries@[i].config.prompts@[j].1@,
                    None => forall|i: int|
                        0 <= i < self.libraries@.len() ==> !((#[trigger] self.libraries@[i]).name@
                            == parts.0 && self.libraries@[i].config.spec_contains(parts.1)),
                },
            },
    {
        let parts = match split_qualified(name) {
            Some(p) => p,
            None => {
                return None;
            },
        };
        let (lib_name, prompt_name) = parts;
        let mut i: usize = 0;
        while i < self.libraries.len()
            invariant
                i <= self.libraries@.len(),
                qualified_parts(name@) == Some((lib_name@, prompt_name@)),
                forall|k: int|
                    0 <= k < i ==> !((#[trigger] self.libraries@[k]).name@ == lib_name@
                        && self.libraries@[k].config.spec_contains(prompt_name@)),
            decreases self.libraries@.len() - i,
        {
            let lib = &self.libraries[i];
            if str_eq(lib.name.as_str(), lib_name.as_str()) {
                match lib.config.get(prompt_name.as_str()) {
                    Some(d) => {
                        return Some(
                            FoundPrompt {
                                prompt_name,
                                definition: clone_definition(d),
                                library_path: lib.path.clone(),
                            },
                        );
                    },
                    None => {},
                }
            }
            i = i + 1;
        }
        None
    }

    /// Validate the caller's arguments against the resolved prompt's
    /// declaration, then render the content the caller fetched from the
    /// library's directory. Fails with the first missing required
    /// argument, in declaration order; a template syntax defect is an
    /// authoring error, reported against the prompt's name.
    pub fn render_found(found: &FoundPrompt, content: &str, arguments: &PromptArgs) -> (r: Result<
        String,
        PromptError,
    >)
        ensures
            match first_missing(args_view(found.definition.arguments@), arguments@) {
                Some(n) => (r matches Err(e) && (e matches PromptError::MissingArgument(m) && m@
                    == n)),
                None => match render_spec(content@, arguments@) {
                    Some(s) => (r matches Ok(out) && out@ == s),
                    None => (r matches Err(e) && (e matches PromptError::InvalidTemplate { file }
                        && file@ == found.prompt_name@)),
                },
            },
    {
        render_checked(
            found.prompt_name.as_str(),
            &found.definition.arguments,
            content,
            arguments,
        )
    }
}

/// One listed prompt: its qualified name, its description, its
/// declared arguments.
pub struct PromptListing {
    pub name: String,
    pub description: String,
    pub arguments: Vec<PromptArgument>,
}

/// The model of one listed prompt.
pub type ListingModel = (Seq<char>, Seq<char>, Seq<ArgModel>);

/// The models of a listing, in order.
pub open spec fn listings_view(s: Seq<PromptListing>) -> Seq<ListingModel>
    decreases s.len(),
{
    if s.len() == 0 {
        Seq::empty()
    } else {
        listings_view(s.drop_last()).push(
            (s.last().name@, s.last().description@, args_view(s.last().arguments@)),
        )
    }
}

/// One library's prompts under their qualified names.
pub open spec fn qualify(nm: Seq<char>, ps: Seq<(Seq<char>, Seq<char>, Seq<ArgModel>)>) -> Seq<
    ListingModel,
>
    decreases ps.len(),
{
    if ps.len() == 0 {
        Seq::empty()
    } else {
        seq![qentry(nm, ps[0])] + qualify(nm, ps.drop_first())
    }
}

/// One prompt under its qualified name.
pub open spec fn qentry(nm: Seq<char>, p: (Seq<char>, Seq<char>, Seq<ArgModel>)) -> ListingModel {
    (nm + seq![':'] + p.0, p.1, p.2)
}

/// Every prompt of every library, libraries in order, each library's
/// prompts in declaration order.
pub open spec fn listing_spec(ls: Seq<LibModel>) -> Seq<ListingModel>
    decreases ls.len(),
{
    if ls.len() == 0 {
        Seq::empty()
    } else {
        qualify(ls[0].0, ls[0].2) + listing_spec(ls.drop_first())
    }
}

impl PromptService {
    /// List every prompt under its qualified name, with description and
    /// declared arguments. Never fails: an empty library set yields an
    /// empty listing.
    pub fn list_prompts(&self) -> (r: Vec<PromptListing>)
        ensures
            listings_view(r@) == listing_spec(libs_view(self.libraries@)),
    {
        let ghost lv = libs_view(self.libraries@);
        proof {
            crate::library::lemma_libs_view_index(self.libraries@);
            assert(lv.skip(0) =~= lv);
        }
        let mut out: Vec<PromptListing> = Vec::new();
        let mut i: usize = 0;
        proof {
            assert(listings_view(out@) =~= Seq::<ListingModel>::empty());
            assert(Seq::<ListingModel>::empty() + listing_spec(lv) =~= listing_spec(lv));
        }
        while i < self.libraries.len()
            invariant
                i <= self.libraries@.len(),
                lv == libs_view(self.libraries@),
                lv.len() == self.libraries@.len(),
                forall|k: int|
                    0 <= k < lv.len() ==> lv[k] == ((#[trigger] self.libraries@[k]).name@,
                    self.libraries@[k].path@, self.libraries@[k].config@),
                listing_spec(lv) == listings_view(out@) + listing_spec(lv.skip(i as int)),
            decreases self.libraries@.len() - i,
        {
            let ghost seg = lv.skip(i as int);
            proof {
                assert(seg[0] == lv[i as int]);
                assert(seg.drop_first() =~= lv.skip(i as int + 1));
            }
            let lib = &self.libraries[i];
            let ghost conf = lib.config@;
            proof {
                crate::library::lemma_prompts_view_index(lib.config.prompts@);
                assert(conf.skip(0) =~= conf);
                assert(listings_view(out@) + (qualify(lib.name@, conf) + listing_spec(
                    lv.skip(i as int + 1),
                )) =~= (listings_view(out@) + qualify(lib.name@, conf)) + listing_spec(
                    lv.skip(i as int + 1),
                ));
            }
            let mut j: usize = 0;
            while j < lib.config.prompts.len()
                invariant
                    j <= lib.config.prompts@.len(),
                    conf == lib.config@,
                    conf.len() == lib.config.prompts@.len(),
                    forall|k: int|
                        0 <= k < conf.len() ==> conf[k] == ((
                        #[trigger] lib.config.prompts@[k]).0@, lib.config.prompts@[k].1.description@,
                        args_view(lib.config.prompts@[k].1.arguments@)),
                    listing_spec(lv) == (listings_view(out@) + qualify(lib.name@, conf.skip(
                        j as int,
                    ))) + listing_spec(lv.skip(i as int + 1)),
                decreases lib.config.prompts@.len() - j,
            {
                let ghost pseg = conf.skip(j as int);
                proof {
                    assert(pseg[0] == conf[j as int]);
                    assert(pseg.drop_first() =~= conf.skip(j as int + 1));
                }
                let p = &lib.config.prompts[j];
                let mut qname = lib.name.clone();
                qname.append(":");
                qname.append(p.0.as_str());
                proof {
                    reveal_strlit(":");
                    assert(":"@ =~= seq![':']);
                    assert(qname@ == lib.name@ + seq![':'] + p.0@);
                }
                let ghost out0 = out@;
                out.push(
                    PromptListing {
                        name: qname,
                        description: p.1.description.clone(),
                        arguments: crate::library::clone_args(&p.1.arguments),
                    },
                );
                proof {
                    assert(out@.drop_last() =~= out0);
                    assert(listings_view(out@) == listings_view(out0).push(qentry(
                        lib.name@,
                        conf[j as int],
                    )));
                    assert((listings_view(out0) + (seq![qentry(lib.name@, conf[j as int])]
                        + qualify(lib.name@, conf.skip(j as int + 1)))) =~= (listings_view(out@)
                        + qualify(lib.name@, conf.skip(j as int + 1))));
                }
                j = j + 1;
            }
            proof {
                assert(conf.skip(conf.len() as int) =~= Seq::<
                    (Seq<char>, Seq<char>, Seq<ArgModel>),
                >::empty());
                assert(qualify(lib.name@, conf.skip(conf.len() as int)) =~= Seq::<
                    ListingModel,
                >::empty());
                assert(listings_view(out@) + Seq::<ListingModel>::empty() =~= listings_view(out@));
            }
            i = i + 1;
        }
        proof {
            assert(lv.skip(lv.len() as int) =~= Seq::<LibModel>::empty());
            assert(listings_view(out@) + Seq::<ListingModel>::empty() =~= listings_view(out@));
        }
        out
    }
}

} // verus!
