use ziggurat::options::{ConfigError, PdfOptions, RequestOptions};

#[test]
fn default_request_options() {
    let options = RequestOptions::default();
    assert_eq!(options.batch_size, 10);
    assert_eq!(options.max_concurrency, 5);
    assert_eq!(options.validate(), Ok(()));
}

#[test]
fn zero_is_refused() {
    assert_eq!(RequestOptions::new(0, 3), Err(ConfigError::ZeroBatchSize));
    assert_eq!(RequestOptions::new(3, 0), Err(ConfigError::ZeroConcurrency));
    assert_eq!(RequestOptions::new(0, 0), Err(ConfigError::ZeroBatchSize));
    assert_eq!(
        RequestOptions::new(4, 2),
        Ok(RequestOptions { batch_size: 4, max_concurrency: 2 })
    );
    let by_hand = RequestOptions { batch_size: 1, max_concurrency: 0 };
    assert_eq!(by_hand.validate(), Err(ConfigError::ZeroConcurrency));
}

#[test]
fn default_pdf_options() {
    let options = PdfOptions::default();
    assert_eq!(options.max_width, 500);
    assert_eq!(options.line_height, 14);
    assert_eq!(options.paragraph_spacing, 20);
    assert_eq!(options.min_y_pos, 50);
    assert_eq!(options.max_y_pos, 750);
    assert_eq!(options.max_image_width, 500);
    assert_eq!(options.max_image_height, 700);
}
