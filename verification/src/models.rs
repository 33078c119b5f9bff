//! Which transcription models count as usable, and what selecting or
//! deleting a model does.
use crate::pipeline::is_blank;
use crate::prompt::trim;
use crate::text::str_eq;
use vstd::prelude::*;

verus! {

/// The transcription engines.
#[derive(Clone, Copy, Debug, PartialEq, Eq, Structural)]
pub enum EngineType {
    Whisper,
    Parakeet,
    Moonshine,
    SenseVoice,
    /// An OpenAI-compatible transcription endpoint.
    ApiWhisper,
    OpenRouterWhisper,
    /// A local FLM server process.
    FlmWhisper,
}

impl EngineType {
    /// Engines without an on-disk model of their own.
    pub open spec fn external(self) -> bool {
        self == EngineType::ApiWhisper || self == EngineType::OpenRouterWhisper || self
            == EngineType::FlmWhisper
    }

    pub fn is_external(self) -> (r: bool)
        ensures
            r == self.external(),
    {
        match self {
            EngineType::ApiWhisper | EngineType::OpenRouterWhisper | EngineType::FlmWhisper => true,
            _ => false,
        }
    }
}

/// What the model registry says of one entry.
#[derive(Clone, Copy, Debug, PartialEq, Eq, Structural)]
pub struct ModelFacts {
    pub engine_type: EngineType,
    pub is_downloaded: bool,
    pub is_downloading: bool,
}

/// The settings the external engines need.
#[derive(Clone, Debug)]
pub struct EngineSettings {
    pub api_transcription_url: String,
    pub openrouter_transcription_url: String,
    pub openrouter_transcription_key: String,
}

/// Whether a registry entry is a real, usable transcription path: the API
/// engine needs an endpoint URL, OpenRouter a URL and a key (white space
/// alone counts as unset); every other engine is usable once downloaded.
pub open spec fn usable_spec(m: ModelFacts, s: EngineSettings) -> bool {
    match m.engine_type {
        EngineType::ApiWhisper => trim(s.api_transcription_url@).len() > 0,
        EngineType::OpenRouterWhisper => trim(s.openrouter_transcription_url@).len() > 0 && trim(
            s.openrouter_transcription_key@,
        ).len() > 0,
        _ => m.is_downloaded,
    }
}

pub fn is_model_usable(model: &ModelFacts, settings: &EngineSettings) -> (r: bool)
    ensures
        r == usable_spec(*model, *settings),
{
    match model.engine_type {
        EngineType::ApiWhisper => !is_blank(settings.api_transcription_url.as_str()),
        EngineType::OpenRouterWhisper => !is_blank(settings.openrouter_transcription_url.as_str())
            && !is_blank(settings.openrouter_transcription_key.as_str()),
        _ => model.is_downloaded,
    }
}

/// Whether any registry entry is usable.
pub fn has_any_models_available(models: &[ModelFacts], settings: &EngineSettings) -> (r: bool)
    ensures
        r == exists|i: int| 0 <= i < models@.len() && usable_spec(#[trigger] models@[i], *settings),
{
    let mut i: usize = 0;
    while i < models.len()
        invariant
            i <= models@.len(),
            forall|k: int| 0 <= k < i ==> !usable_spec(#[trigger] models@[k], *settings),
        decreases models@.len() - i,
    {
        if is_model_usable(&models[i], settings) {
            return true;
        }
        i = i + 1;
    }
    false
}

/// Whether any registry entry is usable or being downloaded.
pub fn has_any_models_or_downloads(models: &[ModelFacts], settings: &EngineSettings) -> (r: bool)
    ensures
        r == exists|i: int|
            0 <= i < models@.len() && (usable_spec(#[trigger] models@[i], *settings)
                || models@[i].is_downloading),
{
    let mut i: usize = 0;
    while i < models.len()
        invariant
            i <= models@.len(),
            forall|k: int|
                0 <= k < i ==> !(usable_spec(#[trigger] models@[k], *settings)
                    || models@[k].is_downloading),
        decreases models@.len() - i,
    {
        if is_model_usable(&models[i], settings) || models[i].is_downloading {
            return true;
        }
        i = i + 1;
    }
    false
}

/// One GPU adapter offered for transcription: an id to persist and a
/// label to show.
#[derive(Clone, Debug)]
pub struct GpuDeviceOption {
    pub index: i32,
    pub name: String,
    pub vram_total_mb: u64,
}

/// What selecting a model does.
#[derive(Clone, Copy, Debug, PartialEq, Eq, Structural)]
pub enum Activation {
    /// Already selected and loaded: nothing to do.
    AlreadyActive,
    /// An external engine: persist the selection first, then warm it up in
    /// the background (a failure there is only a warning).
    PersistThenWarm,
    /// A local model: load it, and persist the selection only once loaded.
    LoadThenPersist,
}

pub open spec fn activation_spec(
    model: Option<ModelFacts>,
    model_id: Seq<char>,
    selected_model: Seq<char>,
    loaded_model: Option<Seq<char>>,
) -> Result<Activation, Seq<char>> {
    match model {
        None => Err("Model not found: "@ + model_id),
        Some(m) => if !m.is_downloaded {
            Err("Model not downloaded: "@ + model_id)
        } else if m.engine_type.external() {
            Ok(Activation::PersistThenWarm)
        } else if selected_model == model_id && loaded_model == Some(model_id) {
            Ok(Activation::AlreadyActive)
        } else {
            Ok(Activation::LoadThenPersist)
        },
    }
}

/// Decide what selecting `model_id` does, given its registry entry (`None`:
/// unknown), the selected model and the loaded one. Reselecting the
/// selected, loaded local model is a no-op; an external engine is always
/// reloaded (its liveness is not in the loaded id).
pub fn set_active_model(
    model: Option<ModelFacts>,
    model_id: &str,
    selected_model: &str,
    loaded_model: Option<&str>,
) -> (r: Result<Activation, String>)
    ensures
        match (r, activation_spec(
            model,
            model_id@,
            selected_model@,
            match loaded_model {
                Some(l) => Some(l@),
                None => None,
            },
        )) {
            (Ok(a), Ok(b)) => a == b,
            (Err(e), Err(t)) => e@ == t,
            _ => false,
        },
{
    match model {
        None => {
            let mut e = String::new();
            e.append("Model not found: ");
            e.append(model_id);
            Err(e)
        },
        Some(m) => {
            if !m.is_downloaded {
                let mut e = String::new();
                e.append("Model not downloaded: ");
                e.append(model_id);
                return Err(e);
            }
            if m.engine_type.is_external() {
                return Ok(Activation::PersistThenWarm);
            }
            let loaded = match loaded_model {
                Some(l) => str_eq(l, model_id),
                None => false,
            };
            if str_eq(selected_model, model_id) && loaded {
                Ok(Activation::AlreadyActive)
            } else {
                Ok(Activation::LoadThenPersist)
            }
        },
    }
}

/// Deleting the selected model unloads it and clears the selection first.
pub fn delete_unloads_active(selected_model: &str, model_id: &str) -> (r: bool)
    ensures
        r == (selected_model@ == model_id@),
{
    str_eq(selected_model, model_id)
}

} // verus!
