use meetings::models::{model_directories, models_present, models_to_download, Model};

#[test]
fn models_have_files_and_addresses() {
    assert_eq!(model_directories(), ["models", "diarization"]);
    assert_eq!(Model::Segmentation.file_name(), "segmentation.onnx");
    assert_eq!(Model::Embedding.file_name(), "embedding.onnx");
    assert_eq!(Model::Segmentation.partial_name(), "segmentation.part");
    assert_eq!(Model::Embedding.partial_name(), "embedding.part");
    assert!(Model::Segmentation.url().starts_with("https://huggingface.co/onnx-community/"));
    assert!(Model::Embedding.url().ends_with("/speaker-embedding.onnx"));
}

#[test]
fn partial_files_are_files_with_another_extension() {
    for model in [Model::Segmentation, Model::Embedding] {
        let path = std::path::Path::new(model.file_name()).with_extension("part");
        assert_eq!(path.to_str(), Some(model.partial_name()));
    }
}

#[test]
fn both_models_must_be_present() {
    assert!(models_present(Some(true), Some(true)));
    assert!(!models_present(Some(true), Some(false)));
    assert!(!models_present(Some(false), Some(true)));
    assert!(!models_present(None, Some(true)));
    assert!(!models_present(Some(true), None));
}

#[test]
fn missing_models_are_downloaded_in_order() {
    assert_eq!(models_to_download(true, true), vec![]);
    assert_eq!(models_to_download(false, true), vec![Model::Segmentation]);
    assert_eq!(models_to_download(true, false), vec![Model::Embedding]);
    assert_eq!(models_to_download(false, false), vec![Model::Segmentation, Model::Embedding]);
}
