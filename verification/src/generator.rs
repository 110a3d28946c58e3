use crate::text::{chars_of, contains_seq, find_sub, lemma_contains_find};
use vstd::prelude::*;
use vstd::string::StringExecFns;

verus! {

/// Configuration for turning a project specification into a backlog through
/// a text-generation model. The model call itself happens outside this
/// library; this type only carries the choices that shape it.
pub struct BacklogGenerator {
    model: String,
    language: String,
    style: String,
}

pub ghost struct BacklogGeneratorV {
    pub model: Seq<char>,
    pub language: Seq<char>,
    pub style: Seq<char>,
}

impl View for BacklogGenerator {
    type V = BacklogGeneratorV;

    closed spec fn view(&self) -> BacklogGeneratorV {
        BacklogGeneratorV { model: self.model@, language: self.language@, style: self.style@ }
    }
}

impl Default for BacklogGenerator {
    /// The preset model, language and style.
    fn default() -> (r: Self)
        ensures
            r@.model == "gpt-4.1-2025-04-14"@,
            r@.language == "en"@,
            r@.style == "standard"@,
    {
        BacklogGenerator {
            model: "gpt-4.1-2025-04-14".to_owned(),
            language: "en".to_owned(),
            style: "standard".to_owned(),
        }
    }
}

impl BacklogGenerator {
    /// A generator with the preset model, language and style.
    pub fn new() -> (r: Self)
        ensures
            r@.model == "gpt-4.1-2025-04-14"@,
            r@.language == "en"@,
            r@.style == "standard"@,
    {
        Self::default()
    }

    /// The same generator with the model replaced.
    pub fn with_model(self, model: &str) -> (r: Self)
        ensures
            r@.model == model@,
            r@.language == self@.language,
            r@.style == self@.style,
    {
        BacklogGenerator { model: model.to_owned(), ..self }
    }

    /// The same generator with the prompt language replaced.
    pub fn with_language(self, language: &str) -> (r: Self)
        ensures
            r@.language == language@,
            r@.model == self@.model,
            r@.style == self@.style,
    {
        BacklogGenerator { language: language.to_owned(), ..self }
    }

    /// The same generator with the style replaced.
    pub fn with_style(self, style: &str) -> (r: Self)
        ensures
            r@.style == style@,
            r@.model == self@.model,
            r@.language == self@.language,
    {
        BacklogGenerator { style: style.to_owned(), ..self }
    }

    /// The configured model name.
    pub fn model(&self) -> (r: &String)
        ensures
            r@ == self@.model,
    {
        &self.model
    }

    /// The configured prompt language.
    pub fn language(&self) -> (r: &String)
        ensures
            r@ == self@.language,
    {
        &self.language
    }

    /// The configured style.
    pub fn style(&self) -> (r: &String)
        ensures
            r@ == self@.style,
    {
        &self.style
    }

    /// Whether the input already reads as a structured project specification.
    pub fn is_structured_spec(input: &str) -> (r: bool)
        ensures
            r == (contains_seq(input@, "Project:"@) && (contains_seq(input@, "Language:"@)
                || contains_seq(input@, "Goal:"@) || contains_seq(input@, "Deliverables:"@))),
    {
        proof {
            reveal_strlit("Project:");
            reveal_strlit("Language:");
            reveal_strlit("Goal:");
            reveal_strlit("Deliverables:");
            assert("Project:"@.len() == 8);
            assert("Language:"@.len() == 9);
            assert("Goal:"@.len() == 5);
            assert("Deliverables:"@.len() == 13);
        }
        let iv = chars_of(input);
        proof {
            lemma_contains_find(input@, "Project:"@);
            lemma_contains_find(input@, "Language:"@);
            lemma_contains_find(input@, "Goal:"@);
            lemma_contains_find(input@, "Deliverables:"@);
        }
        if find_sub(&iv, &chars_of("Project:")).is_none() {
            return false;
        }
        if find_sub(&iv, &chars_of("Language:")).is_some() {
            return true;
        }
        if find_sub(&iv, &chars_of("Goal:")).is_some() {
            return true;
        }
        find_sub(&iv, &chars_of("Deliverables:")).is_some()
    }

    /// The places where a prompt file of the given name may lie, in the
    /// order they are probed.
    pub fn prompt_path_candidates(filename: &str) -> (r: Vec<String>)
        ensures
            r.deep_view() == seq![
                "prompts/"@ + filename@,
                "crates/core/prompts/"@ + filename@,
                filename@,
            ],
    {
        let mut v: Vec<String> = Vec::new();
        let mut a = String::new();
        a.append("prompts/");
        a.append(filename);
        v.push(a);
        let mut b = String::new();
        b.append("crates/core/prompts/");
        b.append(filename);
        v.push(b);
        v.push(filename.to_owned());
        proof {
            assert(v.deep_view() =~= seq![
                "prompts/"@ + filename@,
                "crates/core/prompts/"@ + filename@,
                filename@,
            ]);
        }
        v
    }

    /// The built-in system prompt used when no prompt file is found.
    pub fn fallback_system_prompt() -> (r: String)
        ensures
            r@
                == "You are a helpful assistant specialized in converting project specifications into structured task backlogs. Create a YAML backlog with tasks, dependencies, and deliverables."@,
    {
        let mut m = String::new();
        m.append(
            "You are a helpful assistant specialized in converting project specifications into structured task backlogs. Create a YAML backlog with tasks, dependencies, and deliverables.",
        );
        m
    }
}

} // verus!
