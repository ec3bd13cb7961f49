//! Plain state shared between the interactive front-end views.
//!
//! The front-end itself lives outside the library; these are the pieces of
//! its state that are ordinary data: which kind of file an upload carries,
//! the key-editing state with its letter encoding, and the key/template
//! pair the views hand around.

use vstd::prelude::*;
use vstd::string::StringSliceAdditionalSpecFns;
use crate::template::ExamKey;
use crate::template::Template;

verus! {

/// What an uploaded or downloaded file holds.
pub enum FileType {
    Template,
    Key,
    Container,
    TemplateImage,
}

/// Uppercase a basic letter; everything else passes unchanged.
pub open spec fn upper_byte(b: u8) -> u8 {
    if 97 <= b <= 122 { (b - 32) as u8 } else { b }
}

/// The answer indices encoded by the letters among the first `n` bytes:
/// `A` means `0`, `B` means `1`, and so on; other characters are ignored.
pub open spec fn letters_of(bs: Seq<u8>, n: int) -> Seq<u32>
    decreases n,
{
    if n <= 0 {
        Seq::empty()
    } else {
        letters_of(bs, n - 1)
            + if 65 <= upper_byte(bs[n - 1]) <= 90 {
                seq![(upper_byte(bs[n - 1]) - 65) as u32]
            } else {
                Seq::<u32>::empty()
            }
    }
}

/// Decode an answer-letter sequence: each letter becomes its index, case
/// does not matter, anything else is skipped.
pub fn convert_to_vector(input: &str) -> (r: Vec<u32>)
    ensures
        r@ == letters_of(input.spec_bytes(), input.spec_bytes().len() as int),
{
    let bytes = input.as_bytes();
    let mut r: Vec<u32> = Vec::new();
    let mut i: usize = 0;
    while i < bytes.len()
        invariant
            bytes@ == input.spec_bytes(),
            0 <= i <= bytes@.len(),
            r@ == letters_of(bytes@, i as int),
        decreases bytes@.len() - i,
    {
        let b = bytes[i];
        let up: u8 = if 97 <= b && b <= 122 { b - 32 } else { b };
        if 65 <= up && up <= 90 {
            r.push((up - 65) as u32);
        }
        proof {
            assert(r@ =~= letters_of(bytes@, i + 1));
        }
        i = i + 1;
    }
    r
}

/// The answer letters for a sequence of indices.
pub open spec fn letter_seq(vs: Seq<u32>, n: int) -> Seq<u8>
    decreases n,
{
    if n <= 0 {
        Seq::empty()
    } else {
        letter_seq(vs, n - 1) + seq![(65 + vs[n - 1]) as u8]
    }
}

/// Encode answer indices as letters: `0` becomes `A`, `1` becomes `B`,
/// and so on.
pub fn convert_to_string(input: &Vec<u32>) -> (r: Vec<u8>)
    requires
        forall|i: int| 0 <= i < input@.len() ==> #[trigger] input@[i] < 26,
    ensures
        r@ == letter_seq(input@, input@.len() as int),
{
    let mut r: Vec<u8> = Vec::new();
    let mut i: usize = 0;
    while i < input.len()
        invariant
            forall|k: int| 0 <= k < input@.len() ==> #[trigger] input@[k] < 26,
            0 <= i <= input@.len(),
            r@ == letter_seq(input@, i as int),
        decreases input@.len() - i,
    {
        r.push(65 + (input[i] as u8));
        proof {
            assert(r@ =~= letter_seq(input@, i + 1));
        }
        i = i + 1;
    }
    r
}

/// The key-editing state: one letter string per version and the decoded
/// key built from them.
pub struct CreateKey {
    pub number_of_versions: usize,
    pub inputs: Vec<Vec<u8>>,
    pub key: Vec<Vec<u32>>,
}

impl Default for CreateKey {
    /// Four versions with empty letter strings.
    fn default() -> (r: Self)
        ensures
            r.number_of_versions == 4,
            r.inputs@.len() == 4,
            r.key@.len() == 0,
    {
        let mut inputs: Vec<Vec<u8>> = Vec::new();
        inputs.push(Vec::new());
        inputs.push(Vec::new());
        inputs.push(Vec::new());
        inputs.push(Vec::new());
        CreateKey { number_of_versions: 4, inputs, key: Vec::new() }
    }
}

impl CreateKey {
    /// The decoded key, or nothing while it is still empty.
    pub fn get_key(&self) -> (r: Option<&Vec<Vec<u32>>>)
        ensures
            self.key@.len() > 0 ==> r == Some(&self.key),
            self.key@.len() == 0 ==> r is None,
    {
        if self.key.len() > 0 {
            Some(&self.key)
        } else {
            None
        }
    }

    /// Replace the decoded key and re-encode the letter strings.
    pub fn set_key(&mut self, key: Option<Vec<Vec<u32>>>)
        requires
            key matches Some(k) ==> forall|i: int, j: int|
                0 <= i < k@.len() && 0 <= j < k@[i]@.len() ==> #[trigger] k@[i]@[j] < 26,
        ensures
            match key {
                Some(k) => {
                    &&& final(self).key == k
                    &&& final(self).number_of_versions == k@.len()
                    &&& final(self).inputs@.len() == k@.len()
                },
                None => final(self).key@.len() == 0,
            },
    {
        match key {
            Some(k) => {
                self.number_of_versions = k.len();
                let mut inputs: Vec<Vec<u8>> = Vec::new();
                let mut i: usize = 0;
                while i < k.len()
                    invariant
                        forall|a: int, b: int| 0 <= a < k@.len()
                            && 0 <= b < k@[a]@.len() ==> #[trigger] k@[a]@[b] < 26,
                        0 <= i <= k@.len(),
                        inputs@.len() == i,
                    decreases k@.len() - i,
                {
                    inputs.push(convert_to_string(&k[i]));
                    i = i + 1;
                }
                self.inputs = inputs;
                self.key = k;
            },
            None => {
                self.key = Vec::new();
            },
        }
    }
}

/// An empty placeholder for the front-end's help view.
pub struct Help {}

impl Default for Help {
    /// There is no state to set up.
    fn default() -> (r: Self)
        ensures
            true,
    {
        Help {}
    }
}

/// The key and template the front-end views hand around.
pub struct SharedState {
    pub key: Option<ExamKey>,
    pub template: Option<Template>,
}

impl SharedState {
    /// An empty shared state.
    pub fn new() -> (r: SharedState)
        ensures
            r.key is None,
            r.template is None,
    {
        SharedState { key: None, template: None }
    }

    /// Adopt a key when one is offered.
    pub fn take_key(&mut self, key: Option<ExamKey>)
        ensures
            key is Some ==> final(self).key == key,
            key is None ==> final(self).key == old(self).key,
            final(self).template == old(self).template,
    {
        if key.is_some() {
            self.key = key;
        }
    }

    /// Adopt a template when one is offered.
    pub fn take_template(&mut self, template: Option<Template>)
        ensures
            template is Some ==> final(self).template == template,
            template is None ==> final(self).template == old(self).template,
            final(self).key == old(self).key,
    {
        if template.is_some() {
            self.template = template;
        }
    }
}

} // verus!
