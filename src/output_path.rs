//! Naming the file that a rendered mask is written to.
use vstd::prelude::*;

verus! {

/// Where the name of the output file comes from.
pub enum OutputFileName {
    /// Derived from the input file's name.
    FromOriginal(String),
    /// Given as it is.
    Custom(String),
}

/// The characters of `s` before its first `'.'`, or all of `s` when it has
/// none.
pub open spec fn before_first_dot(s: Seq<char>) -> Seq<char>
    decreases s.len(),
{
    if s.len() == 0 {
        s
    } else if s[0] == '.' {
        Seq::empty()
    } else {
        seq![s[0]] + before_first_dot(s.drop_first())
    }
}

/// The suffix that replaces the extension of a derived output name.
pub open spec fn starred_suffix() -> Seq<char> {
    seq!['-', 's', 't', 'a', 'r', 'r', 'e', 'd', '.', 'j', 'p', 'g']
}

/// The output path for a choice of name.
pub open spec fn output_path_spec(name: OutputFileName) -> Seq<char> {
    match name {
        OutputFileName::FromOriginal(original) => before_first_dot(original@) + starred_suffix(),
        OutputFileName::Custom(custom) => custom@,
    }
}

/// Whether a choice of name can be turned into a path: a name derived from
/// the input file's must hold an extension.
pub open spec fn has_extension(name: OutputFileName) -> bool {
    match name {
        OutputFileName::FromOriginal(original) => original@.contains('.'),
        OutputFileName::Custom(_) => true,
    }
}

/// Relies on str::split_once with a `char` pattern: it splits at the first
/// occurrence, and returns `None` when there is none. Only the part before
/// the separator is kept.
#[verifier::external_body]
fn head_before_dot(s: &str) -> (r: Option<String>)
    ensures
        r is None <==> !s@.contains('.'),
        r matches Some(h) ==> {
            &&& h@.len() < s@.len()
            &&& h@ == s@.take(h@.len() as int)
            &&& s@[h@.len() as int] == '.'
            &&& !h@.contains('.')
        },
{
    s.split_once('.').map(|parts| parts.0.to_string())
}

proof fn lemma_before_first_dot(s: Seq<char>, h: Seq<char>)
    requires
        h.len() < s.len(),
        h == s.take(h.len() as int),
        s[h.len() as int] == '.',
        !h.contains('.'),
    ensures
        before_first_dot(s) == h,
    decreases h.len(),
{
    if h.len() > 0 {
        assert(h[0] != '.');
        let t = h.drop_first();
        assert(!t.contains('.')) by {
            if t.contains('.') {
                let i = choose|i: int| 0 <= i < t.len() && t[i] == '.';
                assert(h[i + 1] == '.');
            }
        }
        assert(t =~= s.drop_first().take(t.len() as int));
        lemma_before_first_dot(s.drop_first(), t);
        assert(h =~= seq![s[0]] + t);
    }
}

/// The path to write the rendered mask to: a custom name as it is, or the
/// input file's name up to its first `'.'` followed by `-starred.jpg`.
pub fn create_output_path(output_file_name: OutputFileName) -> (r: String)
    requires
        has_extension(output_file_name),
    ensures
        r@ == output_path_spec(output_file_name),
{
    match output_file_name {
        OutputFileName::FromOriginal(original_file_name) => {
            let head = head_before_dot(original_file_name.as_str());
            match head {
                Some(h) => {
                    proof {
                        lemma_before_first_dot(original_file_name@, h@);
                        reveal_strlit("-starred.jpg");
                    }
                    let r = h.concat("-starred.jpg");
                    assert(r@ =~= before_first_dot(original_file_name@) + starred_suffix());
                    r
                },
                None => {
                    proof {
                        assert(false);
                    }
                    original_file_name
                },
            }
        },
        OutputFileName::Custom(custom_file_name) => custom_file_name,
    }
}

} // verus!
