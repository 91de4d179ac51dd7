use still_core::riff::{cd_wav_header, wav_data};

fn chunk(id: &[u8; 4], body: &[u8]) -> Vec<u8> {
    let mut v = id.to_vec();
    v.extend_from_slice(&(body.len() as u32).to_le_bytes());
    v.extend_from_slice(body);
    if body.len() % 2 == 1 {
        v.push(0);
    }
    v
}

fn wave(chunks: &[Vec<u8>]) -> Vec<u8> {
    let body: Vec<u8> = chunks.concat();
    let mut v = b"RIFF".to_vec();
    v.extend_from_slice(&((body.len() + 4) as u32).to_le_bytes());
    v.extend_from_slice(b"WAVE");
    v.extend_from_slice(&body);
    v
}

#[test]
fn cd_header_bytes() {
    let h = cd_wav_header(8);
    assert_eq!(h.len(), 44);
    assert_eq!(&h[0..4], b"RIFF");
    assert_eq!(u32::from_le_bytes([h[4], h[5], h[6], h[7]]), 44);
    assert_eq!(&h[8..16], b"WAVEfmt ");
    assert_eq!(u32::from_le_bytes([h[16], h[17], h[18], h[19]]), 16);
    assert_eq!(&h[20..24], &[1, 0, 2, 0]);
    assert_eq!(u32::from_le_bytes([h[24], h[25], h[26], h[27]]), 44_100);
    assert_eq!(u32::from_le_bytes([h[28], h[29], h[30], h[31]]), 176_400);
    assert_eq!(&h[32..36], &[4, 0, 16, 0]);
    assert_eq!(&h[36..40], b"data");
    assert_eq!(u32::from_le_bytes([h[40], h[41], h[42], h[43]]), 8);
}

#[test]
fn header_then_data_reads_back() {
    let samples = [1u8, 2, 3, 4, 5, 6, 7, 8];
    let mut file = cd_wav_header(8);
    file.extend_from_slice(&samples);
    assert_eq!(wav_data(&file), Some(samples.to_vec()));
}

#[test]
fn data_after_other_chunks_and_padding() {
    let file = wave(&[chunk(b"fmt ", &[0; 16]), chunk(b"LIST", &[9, 9, 9]), chunk(b"data", &[10, 20, 30, 40])]);
    assert_eq!(wav_data(&file), Some(vec![10, 20, 30, 40]));
}

#[test]
fn data_cut_at_the_end_of_the_file() {
    let mut file = wave(&[chunk(b"data", &[1, 2, 3, 4])]);
    file.truncate(file.len() - 2);
    assert_eq!(wav_data(&file), Some(vec![1, 2]));
}

#[test]
fn no_wave_or_no_data() {
    assert_eq!(wav_data(b"RIFF\0\0\0\0AVI "), None);
    assert_eq!(wav_data(b"RIF"), None);
    assert_eq!(wav_data(&wave(&[chunk(b"fmt ", &[0; 16])])), None);
    // A chunk claiming more than is left ends the walk.
    let mut file = wave(&[]);
    file.extend_from_slice(b"JUNK");
    file.extend_from_slice(&1000u32.to_le_bytes());
    file.extend_from_slice(&[0; 10]);
    file.extend_from_slice(&chunk(b"data", &[1, 2]));
    assert_eq!(wav_data(&file), None);
}
