//! The two models that diarization needs: where they are kept, where they
//! come from, and which of them are missing.

use vstd::prelude::*;

verus! {

/// A diarization model.
#[derive(Clone, Copy, Debug, PartialEq, Eq, Structural)]
pub enum Model {
    /// Tells which local speakers talk in a window.
    Segmentation,
    /// Turns a stretch of speech into an embedding of its speaker.
    Embedding,
}

/// The file that a model is kept in.
pub open spec fn file_name_of(model: Model) -> Seq<char> {
    match model {
        Model::Segmentation => "segmentation.onnx"@,
        Model::Embedding => "embedding.onnx"@,
    }
}

/// The file that a model is downloaded to before it is complete.
pub open spec fn partial_name_of(model: Model) -> Seq<char> {
    match model {
        Model::Segmentation => "segmentation.part"@,
        Model::Embedding => "embedding.part"@,
    }
}

/// The address that a model is downloaded from.
pub open spec fn url_of(model: Model) -> Seq<char> {
    match model {
        Model::Segmentation => "https://huggingface.co/onnx-community/pyannote-segmentation-3.0/resolve/main/onnx/model.onnx"@,
        Model::Embedding => "https://huggingface.co/deepghs/pyannote-wespeaker-voxceleb-resnet34-LM/resolve/main/speaker-embedding.onnx"@,
    }
}

impl Model {
    /// The file that the model is kept in.
    pub fn file_name(&self) -> (r: &'static str)
        ensures
            r@ == file_name_of(*self),
    {
        match self {
            Model::Segmentation => "segmentation.onnx",
            Model::Embedding => "embedding.onnx",
        }
    }

    /// The file that the model is downloaded to before it is complete.
    pub fn partial_name(&self) -> (r: &'static str)
        ensures
            r@ == partial_name_of(*self),
    {
        match self {
            Model::Segmentation => "segmentation.part",
            Model::Embedding => "embedding.part",
        }
    }

    /// The address that the model is downloaded from.
    pub fn url(&self) -> (r: &'static str)
        ensures
            r@ == url_of(*self),
    {
        match self {
            Model::Segmentation => "https://huggingface.co/onnx-community/pyannote-segmentation-3.0/resolve/main/onnx/model.onnx",
            Model::Embedding => "https://huggingface.co/deepghs/pyannote-wespeaker-voxceleb-resnet34-LM/resolve/main/speaker-embedding.onnx",
        }
    }
}

/// The directories, from the outermost, that the models are kept in, below
/// the directory for the data of the application.
pub fn model_directories() -> (r: [&'static str; 2])
    ensures
        r@[0]@ == "models"@,
        r@[1]@ == "diarization"@,
{
    ["models", "diarization"]
}

/// Whether both models are there. Of each it is told whether its file exists,
/// or nothing where its directory cannot be had.
pub fn models_present(segmentation: Option<bool>, embedding: Option<bool>) -> (r: bool)
    ensures
        r == (segmentation == Some(true) && embedding == Some(true)),
{
    match (segmentation, embedding) {
        (Some(s), Some(e)) => s && e,
        _ => false,
    }
}

/// Whether a model is missing.
pub open spec fn missing(model: Model, segmentation: bool, embedding: bool) -> bool {
    match model {
        Model::Segmentation => !segmentation,
        Model::Embedding => !embedding,
    }
}

/// The missing models, the segmentation model first.
pub open spec fn downloads(segmentation: bool, embedding: bool) -> Seq<Model> {
    (seq![Model::Segmentation, Model::Embedding]).filter(
        |m: Model| missing(m, segmentation, embedding),
    )
}

/// The models to download, given which of them are there.
pub fn models_to_download(segmentation: bool, embedding: bool) -> (r: Vec<Model>)
    ensures
        r@ == downloads(segmentation, embedding),
{
    let mut r: Vec<Model> = Vec::new();
    if !segmentation {
        r.push(Model::Segmentation);
    }
    if !embedding {
        r.push(Model::Embedding);
    }
    proof {
        lemma_downloads(segmentation, embedding);
        assert(r@ =~= downloads(segmentation, embedding));
    }
    r
}

/// The missing models, spelled out.
proof fn lemma_downloads(segmentation: bool, embedding: bool)
    ensures
        downloads(segmentation, embedding) =~= (if segmentation {
            Seq::<Model>::empty()
        } else {
            seq![Model::Segmentation]
        }) + (if embedding {
            Seq::<Model>::empty()
        } else {
            seq![Model::Embedding]
        }),
{
    let all = seq![Model::Segmentation, Model::Embedding];
    reveal_with_fuel(Seq::filter, 3);
    assert(all.drop_last() =~= seq![Model::Segmentation]);
    assert(all.drop_last().drop_last() =~= Seq::<Model>::empty());
}

/// Exactly the missing models are downloaded, each once: both models are there
/// afterwards, and what was there is left alone.
pub proof fn law_downloads_complete_the_models(segmentation: bool, embedding: bool, model: Model)
    ensures
        downloads(segmentation, embedding).contains(model) <==> missing(
            model,
            segmentation,
            embedding,
        ),
        downloads(segmentation, embedding).no_duplicates(),
{
    lemma_downloads(segmentation, embedding);
    let all = downloads(segmentation, embedding);
    if missing(model, segmentation, embedding) {
        if model == Model::Segmentation {
            assert(all[0] == model);
        } else {
            assert(all[all.len() - 1] == model);
        }
    }
}

/// A model is downloaded exactly where its file is not there, the segmentation
/// model first.
pub proof fn law_missing_models_are_downloaded(segmentation: bool, embedding: bool)
    ensures
        downloads(segmentation, embedding).contains(Model::Segmentation) <==> !segmentation,
        downloads(segmentation, embedding).contains(Model::Embedding) <==> !embedding,
        !segmentation ==> downloads(segmentation, embedding)[0] == Model::Segmentation,
        downloads(segmentation, embedding).no_duplicates(),
{
    law_downloads_complete_the_models(segmentation, embedding, Model::Segmentation);
    law_downloads_complete_the_models(segmentation, embedding, Model::Embedding);
    lemma_downloads(segmentation, embedding);
}

/// Each model has a file, a partial file and an address of its own.
pub proof fn law_models_have_their_own_files(a: Model, b: Model)
    requires
        a != b,
    ensures
        file_name_of(a) != file_name_of(b),
        partial_name_of(a) != partial_name_of(b),
        file_name_of(a) != partial_name_of(a) && file_name_of(a) != partial_name_of(b),
        url_of(a) != url_of(b),
        url_of(Model::Embedding)
            == "https://huggingface.co/deepghs/pyannote-wespeaker-voxceleb-resnet34-LM/resolve/main/speaker-embedding.onnx"@,
        url_of(Model::Segmentation)
            == "https://huggingface.co/onnx-community/pyannote-segmentation-3.0/resolve/main/onnx/model.onnx"@,
{
    reveal_strlit("segmentation.onnx");
    reveal_strlit("embedding.onnx");
    reveal_strlit("segmentation.part");
    reveal_strlit("embedding.part");
    reveal_strlit(
        "https://huggingface.co/onnx-community/pyannote-segmentation-3.0/resolve/main/onnx/model.onnx",
    );
    reveal_strlit(
        "https://huggingface.co/deepghs/pyannote-wespeaker-voxceleb-resnet34-LM/resolve/main/speaker-embedding.onnx",
    );
    assert(file_name_of(a)[file_name_of(a).len() - 1] == 'x');
    assert(partial_name_of(a)[partial_name_of(a).len() - 1] == 't');
    assert(partial_name_of(b)[partial_name_of(b).len() - 1] == 't');
    assert(file_name_of(a).len() != file_name_of(b).len());
    assert(partial_name_of(a).len() != partial_name_of(b).len());
    assert(url_of(a).len() != url_of(b).len());
}

} // verus!
