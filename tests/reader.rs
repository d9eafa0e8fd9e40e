use yaws::{Client, Frame, FrameReader, UnexpectedEof, WsParsingError};

const START: usize = 4096;

fn sample_stream() -> (Vec<u8>, Vec<Vec<u8>>) {
    let frames = vec![
        Frame::new_text("first", Some(0x0a0b_0c0d)),
        Frame::new_binary(&vec![9u8; 300], None),
        Frame::new_ping(Some(b"p"), None),
        Frame::new_binary(&vec![3u8; 9000], Some(7)),
        Frame::new_close(Some(1000), None),
    ];
    let stream = frames.concat();
    (stream, frames)
}

/// Feeds `stream` in reads of the given sizes and collects every frame.
fn read_all(stream: &[u8], sizes: &[usize]) -> Vec<Vec<u8>> {
    let mut reader = FrameReader::new(Vec::new());
    let mut out = Vec::new();
    let mut offset = 0;
    let mut k = 0;
    loop {
        loop {
            match reader.try_extract_frame().unwrap() {
                Some(span) => out.push(reader.frame_at(span).as_bytes().to_vec()),
                None => break,
            }
        }
        if offset == stream.len() {
            return out;
        }
        let want = sizes[k % sizes.len()].min(reader.free_space()).min(stream.len() - offset);
        k += 1;
        reader.ingest(&stream[offset..offset + want]).unwrap();
        offset += want;
    }
}

#[test]
fn frames_do_not_depend_on_read_sizes() {
    let (stream, frames) = sample_stream();
    let whole = read_all(&stream, &[usize::MAX]);
    assert_eq!(whole, frames);
    assert_eq!(read_all(&stream, &[1]), frames);
    assert_eq!(read_all(&stream, &[3, 1, 7, 2]), frames);
    assert_eq!(read_all(&stream, &[4096]), frames);
    assert_eq!(read_all(&stream, &[13, 5000]), frames);
}

#[test]
fn bytes_read_ahead_are_kept() {
    let (stream, frames) = sample_stream();
    let ahead = frames[0].len() + 3;
    let client = Client::new((), stream[..ahead].to_vec());
    let mut reader = client.reader;
    let span = reader.try_extract_frame().unwrap().unwrap();
    assert_eq!(reader.frame_at(span).as_bytes(), &frames[0][..]);
    assert_eq!(reader.try_extract_frame(), Ok(None));
}

#[test]
fn buffer_grows_for_a_large_frame() {
    let wire = Frame::new_binary(&vec![5u8; 20_000], None);
    let mut reader = FrameReader::new(Vec::new());
    let mut offset = 0;
    loop {
        if let Some(span) = reader.try_extract_frame().unwrap() {
            let frame = reader.frame_at(span);
            assert_eq!(frame.data_len(), 20_000);
            assert_eq!(frame.as_bytes(), &wire[..]);
            break;
        }
        let free = reader.free_space();
        assert!(free > 0);
        let n = free.min(wire.len() - offset);
        reader.ingest(&wire[offset..offset + n]).unwrap();
        offset += n;
    }
}

#[test]
fn empty_read_is_end_of_stream() {
    let mut reader = FrameReader::new(vec![0x81]);
    assert_eq!(reader.try_extract_frame(), Ok(None));
    assert_eq!(reader.ingest(&[]), Err(UnexpectedEof));
    assert_eq!(reader.ingest(&[0x00]), Ok(()));
    assert!(reader.try_extract_frame().unwrap().is_some());
}

#[test]
fn oversized_length_is_refused() {
    let mut reader = FrameReader::new(vec![0x82, 127, 0xff, 0, 0, 0, 0, 0, 0, 0]);
    assert_eq!(reader.try_extract_frame(), Err(WsParsingError::InvalidLength));
}

#[test]
fn split_keeps_buffered_bytes_on_the_reading_half() {
    let wire = Frame::new_text("kept", None);
    let client = Client::new(0u8, wire.clone());
    let (mut read_half, write_half) = client.split(|s: u8| (s, s + 1));
    assert_eq!(read_half.stream, 0u8);
    assert_eq!(write_half.stream, 1u8);
    let span = read_half.reader.try_extract_frame().unwrap().unwrap();
    assert_eq!(read_half.reader.frame_at(span).as_bytes(), &wire[..]);
}

#[test]
fn short_header_moves_pending_bytes_to_the_front() {
    let frame = Frame::new_binary(&[1u8; 100], None);
    let mut reader = FrameReader::new(Vec::new());
    reader.ingest(&frame).unwrap();
    reader.ingest(&[0x82]).unwrap();
    assert!(reader.try_extract_frame().unwrap().is_some());
    assert_eq!(reader.free_space(), START - frame.len() - 1);
    assert_eq!(reader.try_extract_frame(), Ok(None));
    assert_eq!(reader.free_space(), START - 1);
}

#[test]
fn missing_bytes_that_fit_move_nothing() {
    let first = Frame::new_binary(&[1u8; 100], None);
    let second = Frame::new_binary(&[2u8; 50], None);
    let mut reader = FrameReader::new(Vec::new());
    reader.ingest(&first).unwrap();
    reader.ingest(&second[..10]).unwrap();
    assert!(reader.try_extract_frame().unwrap().is_some());
    let free = reader.free_space();
    assert_eq!(free, START - first.len() - 10);
    assert_eq!(reader.try_extract_frame(), Ok(None));
    assert_eq!(reader.free_space(), free);
}

#[test]
fn missing_bytes_that_do_not_fit_compact_then_grow() {
    let first = Frame::new_binary(&[1u8; 4000], None);
    let second = Frame::new_binary(&[2u8; 200], None);
    let mut reader = FrameReader::new(Vec::new());
    reader.ingest(&first).unwrap();
    reader.ingest(&second[..20]).unwrap();
    assert!(reader.try_extract_frame().unwrap().is_some());
    assert_eq!(reader.try_extract_frame(), Ok(None));
    assert_eq!(reader.free_space(), START - 20);
    let big = Frame::new_binary(&[3u8; 5000], None);
    let mut reader = FrameReader::new(big[..10].to_vec());
    assert_eq!(reader.try_extract_frame(), Ok(None));
    assert_eq!(reader.free_space(), big.len() - 10);
}

#[test]
fn frames_of_reads_matches_a_single_read() {
    let (stream, frames) = sample_stream();
    let whole = FrameReader::frames_of_reads(&[stream.clone()]).unwrap();
    assert_eq!(whole, frames);
    let bytes: Vec<Vec<u8>> = stream.iter().map(|b| vec![*b]).collect();
    assert_eq!(FrameReader::frames_of_reads(&bytes).unwrap(), frames);
    let uneven = vec![
        stream[..7].to_vec(),
        Vec::new(),
        stream[7..5000].to_vec(),
        stream[5000..].to_vec(),
    ];
    assert_eq!(FrameReader::frames_of_reads(&uneven).unwrap(), frames);
    let mut cut = stream.clone();
    cut.truncate(stream.len() - 1);
    assert_eq!(FrameReader::frames_of_reads(&[cut]).unwrap(), frames[..4].to_vec());
}

#[test]
fn frames_of_reads_stops_at_an_invalid_length() {
    let mut stream = Frame::new_text("ok", None);
    stream.extend_from_slice(&[0x82, 127, 0x80, 0, 0, 0, 0, 0, 0, 1]);
    assert_eq!(
        FrameReader::frames_of_reads(&[stream[..3].to_vec(), stream[3..].to_vec()]),
        Err(WsParsingError::InvalidLength)
    );
}
