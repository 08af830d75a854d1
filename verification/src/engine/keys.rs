use vstd::prelude::*;
use crate::engine::zobrist::lcg_key;

verus! {

/// Zobrist keys: cell `i`, colour `j` (0 black, 1 white); the same values
/// as [`Zobrist::table`] computes.
pub const KEYS: [[u64; 2]; 225] = [
    [0x8ddb1a43e77c4031, 0x5950e8c33d34979e],
    [0x723f4114006c08c7, 0x817de530db2b43fc],
    [0x047811fa5f00f74d, 0x7b31cfa7f9abab8a],
    [0x51ffcc7cdc989d43, 0x6d7d17ace8d6e1c8],
    [0x57bf9128512fe829, 0x65ece16055752636],
    [0x89fc1c5968fa817f, 0x373a9e5dcd31c454],
    [0x4ed5264cf7092ec5, 0x6f2068f0af79f3a2],
    [0xffd86b253d97317b, 0x9fcff96925b6b7a0],
    [0x8771fa2da656a721, 0x9210fe654c59bfce],
    [0xb5961d12bcd3e937, 0xbdb5a33662f547ac],
    [0x93c79eecdac7ed3d, 0xde4cf8afd456f6ba],
    [0x6b93ffce49f1a4b3, 0x6b07a3f2e05dc078],
    [0x138aefcc98ce5d19, 0x45c00be9d802c466],
    [0xb3da641cef491fef, 0xd5d857d8e0cd2e04],
    [0x71c4b06e463912b5, 0xe14356cf47a914d2],
    [0x97d4cf7df046d6eb, 0xf4a097ae3bd95c50],
    [0x1428f04bd490ea11, 0x9d97f29a897c93fe],
    [0x35256c76832705a7, 0xa962f1a447dcd75c],
    [0x2969e82bd9347f2d, 0xe47ad0ae9a82adea],
    [0x9061a12aae71a823, 0x830db1434cc2eb28],
    [0x695b8d33ef342e09, 0xfb47f86a663f8e96],
    [0x46b4dd1e06367a5f, 0x28139c188b93a3b4],
    [0xd68b05ba7eee12a5, 0x39559fdb41222202],
    [0x1e59cc2ac508f85b, 0x758ad736a6bfcd00],
    [0x0296f8d2c76a0901, 0x0f65628b31b0142e],
    [0x7036f5ad7cbc5e17, 0xa09d3bfcf72cf30c],
    [0x915d6883c575ad1d, 0x7471ad1a7471d11a],
    [0x845ba74f5adfa793, 0x5ed2a1cb1a0161d8],
    [0xb910d16c54805af9, 0x7f0b2972669e84c6],
    [0x27a2e280bcf990cf, 0xe26a8302c3302564],
    [0x1e032f04a5372e95, 0x31e150eac3881b32],
    [0x3a1a5659908495cb, 0x13cee6c2a0c509b0],
    [0xd769a376e5e103f1, 0xadacb670e0c7405e],
    [0x0269f4f4baaaf287, 0x1aed2ad9daf09abc],
    [0x6700daeeb87a770d, 0x1d94f5635527604a],
    [0xd0201f3783c2a303, 0x741803547cd42488],
    [0xca3f2e00d291e3e9, 0x2f8381233652a6f6],
    [0xec4d240dc289633f, 0x13e2ab6dd20db314],
    [0xd7967b29e2e36685, 0x730ec816d93e0062],
    [0xe3ecd4374320af3b, 0x276e876e85041260],
    [0x7a08fe1d98b4dae1, 0x6bced9c0c155188e],
    [0x34435992a5c9c2f7, 0x4f4a94c109f2ce6c],
    [0x6fd0027468f1dcfd, 0xb2e30d602a665b7a],
    [0x4fe37c1db1619a73, 0x8f418617a2b63338],
    [0x77aa77f86d07c8d9, 0xe8e73c0f594ef526],
    [0xc072e76ad59cf1af, 0x00e9e19c07574cc4],
    [0xfb8e8f1f7781ba75, 0x7465213e9f66d192],
    [0x160e34cf590444ab, 0x711c47897f57e710],
    [0x2509ddea3a648dd1, 0xec762d81bcac9cbe],
    [0xc9ba10cd6eafcf67, 0x96a51d06f7be8e1c],
    [0x1dd4fe261b4adeed, 0x4e6dc4a80cb1c2aa],
    [0x480258f92fc38de3, 0x4b336a5761e28de8],
    [0x5a3257b1114109c9, 0xa5e3e7c6aa466f56],
    [0xf4eeda8f34ab3c1f, 0x6a9c114366f7f274],
    [0x3c2c319ca8612a65, 0x39fe00f675e58ec2],
    [0x4f6034e74a16561b, 0xf94ea9b83c5b87c0],
    [0x206665a7072f1cc1, 0xda87e7ceaae0ccee],
    [0x100c559d7db417d7, 0xb907ebbc249ed9cc],
    [0x64c5f83691b47cdd, 0xb59dadd76f4c95da],
    [0x32a812777eaf7d53, 0x396c7fc9e9543498],
    [0x67478d96865ca6b9, 0x050be80e8aac1586],
    [0x71024e740deb428f, 0x050b4e21599aa424],
    [0x52c78160b090b655, 0x681080e32f5d37f2],
    [0x016917d5f9fde38b, 0x7d8ab3639969f470],
    [0xa6ee688a0d1387b1, 0x22c4d38482c4a91e],
    [0x74babc1be2ed9c47, 0x22eda9a6cd9eb17c],
    [0x7c5cbf2dfc1db6cd, 0xbe1380c15039d50a],
    [0x7c046071c1ac68c3, 0x6d2d91cd70c62748],
    [0x84728ab55d399fa9, 0x99f5ddc612b2e7b6],
    [0x99f57100ef5404ff, 0x43037e1a5caa61d4],
    [0x3f4c0514b0df5e45, 0x7961c0814130cd22],
    [0xd01edb572821ecfb, 0x15221d73549e2d20],
    [0xeecb08561bd0cea1, 0xbeca231c89eb314e],
    [0x8c856facc6335cb7, 0x398eab489c89152c],
    [0x23fb9839e8358cbd, 0x49bd6a8c683c803a],
    [0x2005d5de30015033, 0x8f80db68e8b365f8],
    [0x67d59c29e076f499, 0x5e7c0276414de5e6],
    [0x32d2dd34369c836f, 0x4f4fefe5b2522b84],
    [0x3960c3c99fdc2235, 0xdc045d57f3834e52],
    [0x343bad5adfa9726b, 0x777a2254bcd331d0],
    [0x7a4aadd7b4e5f191, 0x0129c9b284a7657e],
    [0x9eb7dae5d71c5927, 0x31d7f5f057e904dc],
    [0x1b285999316afead, 0x22a8eebc5ad7976a],
    [0x917aee3d84b533a3, 0xe3a4de18aa56f0a8],
    [0x18e6a86b0473a589, 0x14284b8e2c301016],
    [0xf22c9887813bbddf, 0x16c5e945117d0134],
    [0xef7a551239d60225, 0x3fdad5989137bb82],
    [0x0ffd2ad0e77b73db, 0xa378a44d61a40280],
    [0x76743abdfb91f081, 0xd5888d36e60c45ae],
    [0xc2eeb030bcff9197, 0x7a4e89d79309808c],
    [0x63cc9c23f0ed0c9d, 0xd83cbc26e64e1a9a],
    [0x7ad70f846e8f1313, 0xffbeb66727abc758],
    [0x60de3d71574eb279, 0x1ba8e84b2fcc6646],
    [0xd27054901c68b44f, 0xb743f7c855d5e2e4],
    [0xbcf297b8f0dbfe15, 0x678b982997f114b2],
    [0x96c3ae70323ef14b, 0x5dee2719c36b9f30],
    [0xdc1a13cfa4d3cb71, 0xdb16c4ccffecd1de],
    [0xa1d40a2986f40607, 0x80671c4c5df5883c],
    [0x227f92ef6daab68d, 0x2bd898d513a309ca],
    [0xc0a4a7810015ee83, 0xc0c8c9519b6cea08],
    [0xd38b6eb9f0e71b69, 0x64276d4d1f55e876],
    [0x2e588bdb751a66bf, 0x8a728f1d2fc7d094],
    [0xd90f7e11dcbd1605, 0x3b00451de81259e2],
    [0x060ab67a4e5aeabb, 0xdfbbd7d8034507e0],
    [0x224f627be76a8261, 0x4f4f765532dc0a0e],
    [0x300d1ab91bd0b677, 0xe9cf2ce6f5781bec],
    [0x2a63d80e0c52fc7d, 0x065c47d0669964fa],
    [0xb0e94bbc1f90c5f3, 0x76736578b91558b8],
    [0x2b5dc22562dbe059, 0xc28bc0d674bf96a6],
    [0x4a7fd1078807d52f, 0x635f3fead47dca44],
    [0x41a01ee8ab0849f5, 0x9e246197f4be8b12],
    [0x95a7287ad5f6602b, 0xe80d9e3e930b3c90],
    [0x723bacc76bd51551, 0x16b046231e2cee3e],
    [0x81c49febaa2ca2e7, 0xcdc920cb731c3b9c],
    [0x11593d6b3f54de6d, 0xc6c90bdc0db42c2a],
    [0x756c82d6f7069963, 0xb81db31d5ce01368],
    [0xda882ab2a88c0149, 0x6d129ab880bc70d6],
    [0xbb03671751a7ff9f, 0x80089239ade2cff4],
    [0x6884fa0a8f0c99e5, 0x93628218f3d8a842],
    [0x321bfa02def8519b, 0x0748f21ee5593d40],
    [0x5052a2953c528441, 0x7d136bdfcff27e6e],
    [0x58dd1583185ecb57, 0x9e11cef77d2ce74c],
    [0xaa6870c376df5c5d, 0x68142a1a12365f5a],
    [0xaced9e64643e68d3, 0x132e0de93bc81a18],
    [0x4b21d01617167e39, 0xae2e2aeb9abf7706],
    [0xdc79fa033e31e60f, 0x2f9d4e670aa1e1a4],
    [0x90161f6c31d905d5, 0x6359ae3c0e03b172],
    [0x822985606b07bf0b, 0x2849f0341d8a09f0],
    [0x71efbf4bb4e1cf31, 0x337b9f97f4ffba9e],
    [0x8be55a45747e2fc7, 0xcdcaa89bf6b51efc],
    [0x936401b810e1764d, 0xed538f9c8822fe8a],
    [0x7ce0cc3e68bf3443, 0x18e1a38393886cc8],
    [0xad1b222c4d5a5729, 0x4e6639d350fba936],
    [0x164b0e85999c887f, 0x4f8ebfa4ce25ff54],
    [0x62e7a7eba23c8dc5, 0xce6f80dd8ea2a6a2],
    [0xe47f9151d78ba87b, 0xeb30e93dbfb8a2a0],
    [0xd43f1ed57341f621, 0x4978b1f608e7a2ce],
    [0x146a40076461d037, 0x6b986882af7fe2ac],
    [0xbbc018ff490a2c3d, 0x23b07ce2be3d09ba],
    [0x7647465799cffbb3, 0x8a2bf1f1da9c0b78],
    [0xbebf774923f68c19, 0xe3dbd52e98640766],
    [0x8dab8022ff9ee6ef, 0x90a23b05209a2904],
    [0xcbeaaeae44c631b5, 0x9d3e47ae13d887d2],
    [0xf7add2b54dab0deb, 0x1b5b666660c00750],
    [0xfe36a4fe46f1f911, 0x10d242a885fd36fe],
    [0xb42f3d7295a0aca7, 0x5e8af4801418325c],
    [0x0997efb028c87e2d, 0x84feda426e0780ea],
    [0x48a248089077bf23, 0xc76f80c4703df628],
    [0x0f4d34629d4a1d09, 0x53335cb3fcab9196],
    [0x102b246ecbb0015f, 0xfdeaf6121ee95eb4],
    [0x8056ba1ac3c4f1a5, 0x26692531be885502],
    [0x59126f34324cef5b, 0x352c5df6563b3800],
    [0x7f2c562c2130d801, 0xaedcc7f41553772e],
    [0xee3838882d91c517, 0x4f77dbf0ddc90e0c],
    [0x22bdd5aa774b6c1d, 0x487a983cebc5641a],
    [0x71dc2fd9597d7e93, 0x8bb9f00f4c692cd8],
    [0x2ef03e17d57409f9, 0x84f68159d04547c6],
    [0x06d76a8b8906d7cf, 0x8e01f7f18abea064],
    [0x2925436eff47cd95, 0x7f1af82b62550e32],
    [0x1399c7ea96184ccb, 0x5c001352668534b0],
    [0x1250807404fd92f1, 0x43c3da71bebd635e],
    [0xc65e20df394c1987, 0x0e359e43c29d75bc],
    [0x7e88561aa981f60d, 0xe4ff3ec05679b34a],
    [0xdd4ef4c6e5683a03, 0xa3be382eafd8af88],
    [0x701c3193f25352e9, 0xcffe8a4a5c6429f6],
    [0xf37e8de7629a6a3f, 0xa6eeb0147a84ee14],
    [0xc236cbf1fd1dc585, 0xf35f8b73b5a1b362],
    [0x30a6930aa574263b, 0x1910dd4678b8fd60],
    [0x30fc140af71729e1, 0xb12b77f918cdfb8e],
    [0x9467d09f1da6a9f7, 0xff9aa48f2560696c],
    [0xddd4c919d21b1bfd, 0xdd108e54c7e76e7a],
    [0xb2cad604787ef173, 0x0c08b557d4077e38],
    [0xa7e5a44d1386f7d9, 0x0925f28410fb3826],
    [0x0c96b3349321b8af, 0x7aff7d73096747c4],
    [0xb576aec1d8d5d975, 0x00a1513c81914492],
    [0x806d0b7c18877bab, 0x8d2acd9c44b19210],
    [0x265d4a12edfc9cd1, 0xd2d0b0b678d83fbe],
    [0x72506b3607387667, 0x62479932c59ce91c],
    [0xb56d61699185dded, 0x0d3dd635849195aa],
    [0x6cabec391ac8a4e3, 0xfbd959f59b3098e8],
    [0x198b699f426df8c9, 0xb65f3225b4bd7256],
    [0xbdb4069dd513c31f, 0x0c4e31540750ad74],
    [0x8c809e3db3bf0965, 0x4ae0acbfd206c1c2],
    [0x776fbd77a3394d1b, 0x34d4f4fe0309f2c0],
    [0xc29678c3c1ecebc1, 0x1948f16d22ef2fee],
    [0xa48430cb5a587ed7, 0x891988856f9df4cc],
    [0x97a6854c05f13bdd, 0x4ccc62562bbb28da],
    [0xa5a90339080c5453, 0x26b122d1404eff98],
    [0xc8e29d43622755b9, 0xbb5d4666951dd886],
    [0xde50b236d2a7898f, 0x81d958a0a8ec1f24],
    [0xe7687c0ba4e85555, 0xd0b48d5b25a52af2],
    [0x68a0371e65309a8b, 0xc50fbe251d1d1f70],
    [0x75dcb3f01ce716b1, 0x94a5dde579e5cc1e],
    [0x0a6c7d6e231dc347, 0x16a4f58eac6e8c7c],
    [0xd89d0177bb4c35cd, 0x6b282453e767280a],
    [0xe811e33b1fd0ffc3, 0x39f0a807071db248],
    [0x2bc9f1a21f920ea9, 0x24394b3ab64f6ab6],
    [0x12f143a895d40bff, 0x57f7d6c437a49cd4],
    [0xd752fabaa920bd45, 0xe6cede169dcf8022],
    [0xeae9a40d59d463fb, 0xc9f09b54dd061820],
    [0xc18d98e66aaa1da1, 0x469a6e872f4f144e],
    [0x69a36aff855f43b7, 0x594fcdcc71d9b02c],
    [0x210465279b45cbbd, 0xde5c7a529c58933a],
    [0x1caef08a555da733, 0x99e665c6ec17b0f8],
    [0xf82a8102e14d2399, 0xa2ef39a3034528e6],
    [0xc167d819f8504a6f, 0xe2791d17c1a52684],
    [0xe38b380092f74135, 0x2d9a0c982ea8c152],
    [0x599f1aecc84ba96b, 0x5c3c01211d9fdcd0],
    [0x698d64adc8b50091, 0xb5c4c41f737e087e],
    [0x7a974cd92cb40027, 0xaf84e704d26a5fdc],
    [0x01ea9646dd4cfdad, 0x3bc9b6c61a126a6a],
    [0x035fc8b31fb94aa3, 0xee5c17e15477fba8],
    [0xf65e2096b7b79489, 0x132a9da97db21316],
    [0x04202554139344df, 0x9d0109d9c9d8bc34],
    [0xfbaf3e93fabae125, 0xae8faa82cf13ee82],
    [0x956b23fbb37d6adb, 0x43a76980fa856d80],
    [0x7f88339ef646bf81, 0xe1f6e4d32585a8ae],
    [0x3e45fc2fbc72f897, 0xe3107223ad6b9b8c],
    [0x7c3b6cb8f690cb9d, 0x406ecc274ad7ad9a],
    [0x5ef2442ce9aaea13, 0x7613431fbe399258],
    [0xab14f45f4cf06179, 0x10aad7096e092946],
    [0xd5f63722b0d3fb4f, 0xf21b39b1f7ea5de4],
    [0x856b1ea22e7a9d15, 0x8722ec41a8b407b2],
    [0xf2f1bf974a10a84b, 0xfca5da2d8011ca30],
    [0x1feb0959445e5a71, 0x8fbf553d0338f4de]
];

/// Key of cell `i` (0..225) for colour `c` (0 black, 1 white).
pub closed spec fn key_value(i: int, c: int) -> u64 {
    KEYS[i][c]
}

/// Reads one key.
#[verifier::rlimit(50)]
pub fn key(i: usize, c: usize) -> (k: u64)
    requires
        i < 225,
        c < 2,
    ensures
        k == key_value(i as int, c as int),
{
    KEYS[i][c]
}

proof fn lemma_block_0(i: int, c: int)
    requires
        0 <= i < 5,
        0 <= c < 2,
        lcg_key(0) == 0x123456789abcdef0u64,
    ensures
        key_value(i, c) == lcg_key((2 * i + c + 1) as nat),
{
    crate::engine::key_chain::lemma_steps_0();
    if i == 0 && c == 0 {
        assert(key_value(0, 0) == 0x8ddb1a43e77c4031u64);
    } else if i == 0 && c == 1 {
        assert(key_value(0, 1) == 0x5950e8c33d34979eu64);
    } else if i == 1 && c == 0 {
        assert(key_value(1, 0) == 0x723f4114006c08c7u64);
    } else if i == 1 && c == 1 {
        assert(key_value(1, 1) == 0x817de530db2b43fcu64);
    } else if i == 2 && c == 0 {
        assert(key_value(2, 0) == 0x047811fa5f00f74du64);
    } else if i == 2 && c == 1 {
        assert(key_value(2, 1) == 0x7b31cfa7f9abab8au64);
    } else if i == 3 && c == 0 {
        assert(key_value(3, 0) == 0x51ffcc7cdc989d43u64);
    } else if i == 3 && c == 1 {
        assert(key_value(3, 1) == 0x6d7d17ace8d6e1c8u64);
    } else if i == 4 && c == 0 {
        assert(key_value(4, 0) == 0x57bf9128512fe829u64);
    } else if i == 4 && c == 1 {
        assert(key_value(4, 1) == 0x65ece16055752636u64);
    }
}

proof fn lemma_block_1(i: int, c: int)
    requires
        5 <= i < 10,
        0 <= c < 2,
        lcg_key(10) == 0x65ece16055752636u64,
    ensures
        key_value(i, c) == lcg_key((2 * i + c + 1) as nat),
{
    crate::engine::key_chain::lemma_steps_1();
    if i == 5 && c == 0 {
        assert(key_value(5, 0) == 0x89fc1c5968fa817fu64);
    } else if i == 5 && c == 1 {
        assert(key_value(5, 1) == 0x373a9e5dcd31c454u64);
    } else if i == 6 && c == 0 {
        assert(key_value(6, 0) == 0x4ed5264cf7092ec5u64);
    } else if i == 6 && c == 1 {
        assert(key_value(6, 1) == 0x6f2068f0af79f3a2u64);
    } else if i == 7 && c == 0 {
        assert(key_value(7, 0) == 0xffd86b253d97317bu64);
    } else if i == 7 && c == 1 {
        assert(key_value(7, 1) == 0x9fcff96925b6b7a0u64);
    } else if i == 8 && c == 0 {
        assert(key_value(8, 0) == 0x8771fa2da656a721u64);
    } else if i == 8 && c == 1 {
        assert(key_value(8, 1) == 0x9210fe654c59bfceu64);
    } else if i == 9 && c == 0 {
        assert(key_value(9, 0) == 0xb5961d12bcd3e937u64);
    } else if i == 9 && c == 1 {
        assert(key_value(9, 1) == 0xbdb5a33662f547acu64);
    }
}

proof fn lemma_block_2(i: int, c: int)
    requires
        10 <= i < 15,
        0 <= c < 2,
        lcg_key(20) == 0xbdb5a33662f547acu64,
    ensures
        key_value(i, c) == lcg_key((2 * i + c + 1) as nat),
{
    crate::engine::key_chain::lemma_steps_2();
    if i == 10 && c == 0 {
        assert(key_value(10, 0) == 0x93c79eecdac7ed3du64);
    } else if i == 10 && c == 1 {
        assert(key_value(10, 1) == 0xde4cf8afd456f6bau64);
    } else if i == 11 && c == 0 {
        assert(key_value(11, 0) == 0x6b93ffce49f1a4b3u64);
    } else if i == 11 && c == 1 {
        assert(key_value(11, 1) == 0x6b07a3f2e05dc078u64);
    } else if i == 12 && c == 0 {
        assert(key_value(12, 0) == 0x138aefcc98ce5d19u64);
    } else if i == 12 && c == 1 {
        assert(key_value(12, 1) == 0x45c00be9d802c466u64);
    } else if i == 13 && c == 0 {
        assert(key_value(13, 0) == 0xb3da641cef491fefu64);
    } else if i == 13 && c == 1 {
        assert(key_value(13, 1) == 0xd5d857d8e0cd2e04u64);
    } else if i == 14 && c == 0 {
        assert(key_value(14, 0) == 0x71c4b06e463912b5u64);
    } else if i == 14 && c == 1 {
        assert(key_value(14, 1) == 0xe14356cf47a914d2u64);
    }
}

proof fn lemma_block_3(i: int, c: int)
    requires
        15 <= i < 20,
        0 <= c < 2,
        lcg_key(30) == 0xe14356cf47a914d2u64,
    ensures
        key_value(i, c) == lcg_key((2 * i + c + 1) as nat),
{
    crate::engine::key_chain::lemma_steps_3();
    if i == 15 && c == 0 {
        assert(key_value(15, 0) == 0x97d4cf7df046d6ebu64);
    } else if i == 15 && c == 1 {
        assert(key_value(15, 1) == 0xf4a097ae3bd95c50u64);
    } else if i == 16 && c == 0 {
        assert(key_value(16, 0) == 0x1428f04bd490ea11u64);
    } else if i == 16 && c == 1 {
        assert(key_value(16, 1) == 0x9d97f29a897c93feu64);
    } else if i == 17 && c == 0 {
        assert(key_value(17, 0) == 0x35256c76832705a7u64);
    } else if i == 17 && c == 1 {
        assert(key_value(17, 1) == 0xa962f1a447dcd75cu64);
    } else if i == 18 && c == 0 {
        assert(key_value(18, 0) == 0x2969e82bd9347f2du64);
    } else if i == 18 && c == 1 {
        assert(key_value(18, 1) == 0xe47ad0ae9a82adeau64);
    } else if i == 19 && c == 0 {
        assert(key_value(19, 0) == 0x9061a12aae71a823u64);
    } else if i == 19 && c == 1 {
        assert(key_value(19, 1) == 0x830db1434cc2eb28u64);
    }
}

proof fn lemma_block_4(i: int, c: int)
    requires
        20 <= i < 25,
        0 <= c < 2,
        lcg_key(40) == 0x830db1434cc2eb28u64,
    ensures
        key_value(i, c) == lcg_key((2 * i + c + 1) as nat),
{
    crate::engine::key_chain::lemma_steps_4();
    if i == 20 && c == 0 {
        assert(key_value(20, 0) == 0x695b8d33ef342e09u64);
    } else if i == 20 && c == 1 {
        assert(key_value(20, 1) == 0xfb47f86a663f8e96u64);
    } else if i == 21 && c == 0 {
        assert(key_value(21, 0) == 0x46b4dd1e06367a5fu64);
    } else if i == 21 && c == 1 {
        assert(key_value(21, 1) == 0x28139c188b93a3b4u64);
    } else if i == 22 && c == 0 {
        assert(key_value(22, 0) == 0xd68b05ba7eee12a5u64);
    } else if i == 22 && c == 1 {
        assert(key_value(22, 1) == 0x39559fdb41222202u64);
    } else if i == 23 && c == 0 {
        assert(key_value(23, 0) == 0x1e59cc2ac508f85bu64);
    } else if i == 23 && c == 1 {
        assert(key_value(23, 1) == 0x758ad736a6bfcd00u64);
    } else if i == 24 && c == 0 {
        assert(key_value(24, 0) == 0x0296f8d2c76a0901u64);
    } else if i == 24 && c == 1 {
        assert(key_value(24, 1) == 0x0f65628b31b0142eu64);
    }
}

proof fn lemma_block_5(i: int, c: int)
    requires
        25 <= i < 30,
        0 <= c < 2,
        lcg_key(50) == 0x0f65628b31b0142eu64,
    ensures
        key_value(i, c) == lcg_key((2 * i + c + 1) as nat),
{
    crate::engine::key_chain::lemma_steps_5();
    if i == 25 && c == 0 {
        assert(key_value(25, 0) == 0x7036f5ad7cbc5e17u64);
    } else if i == 25 && c == 1 {
        assert(key_value(25, 1) == 0xa09d3bfcf72cf30cu64);
    } else if i == 26 && c == 0 {
        assert(key_value(26, 0) == 0x915d6883c575ad1du64);
    } else if i == 26 && c == 1 {
        assert(key_value(26, 1) == 0x7471ad1a7471d11au64);
    } else if i == 27 && c == 0 {
        assert(key_value(27, 0) == 0x845ba74f5adfa793u64);
    } else if i == 27 && c == 1 {
        assert(key_value(27, 1) == 0x5ed2a1cb1a0161d8u64);
    } else if i == 28 && c == 0 {
        assert(key_value(28, 0) == 0xb910d16c54805af9u64);
    } else if i == 28 && c == 1 {
        assert(key_value(28, 1) == 0x7f0b2972669e84c6u64);
    } else if i == 29 && c == 0 {
        assert(key_value(29, 0) == 0x27a2e280bcf990cfu64);
    } else if i == 29 && c == 1 {
        assert(key_value(29, 1) == 0xe26a8302c3302564u64);
    }
}

proof fn lemma_block_6(i: int, c: int)
    requires
        30 <= i < 35,
        0 <= c < 2,
        lcg_key(60) == 0xe26a8302c3302564u64,
    ensures
        key_value(i, c) == lcg_key((2 * i + c + 1) as nat),
{
    crate::engine::key_chain::lemma_steps_6();
    if i == 30 && c == 0 {
        assert(key_value(30, 0) == 0x1e032f04a5372e95u64);
    } else if i == 30 && c == 1 {
        assert(key_value(30, 1) == 0x31e150eac3881b32u64);
    } else if i == 31 && c == 0 {
        assert(key_value(31, 0) == 0x3a1a5659908495cbu64);
    } else if i == 31 && c == 1 {
        assert(key_value(31, 1) == 0x13cee6c2a0c509b0u64);
    } else if i == 32 && c == 0 {
        assert(key_value(32, 0) == 0xd769a376e5e103f1u64);
    } else if i == 32 && c == 1 {
        assert(key_value(32, 1) == 0xadacb670e0c7405eu64);
    } else if i == 33 && c == 0 {
        assert(key_value(33, 0) == 0x0269f4f4baaaf287u64);
    } else if i == 33 && c == 1 {
        assert(key_value(33, 1) == 0x1aed2ad9daf09abcu64);
    } else if i == 34 && c == 0 {
        assert(key_value(34, 0) == 0x6700daeeb87a770du64);
    } else if i == 34 && c == 1 {
        assert(key_value(34, 1) == 0x1d94f5635527604au64);
    }
}

proof fn lemma_block_7(i: int, c: int)
    requires
        35 <= i < 40,
        0 <= c < 2,
        lcg_key(70) == 0x1d94f5635527604au64,
    ensures
        key_value(i, c) == lcg_key((2 * i + c + 1) as nat),
{
    crate::engine::key_chain::lemma_steps_7();
    if i == 35 && c == 0 {
        assert(key_value(35, 0) == 0xd0201f3783c2a303u64);
    } else if i == 35 && c == 1 {
        assert(key_value(35, 1) == 0x741803547cd42488u64);
    } else if i == 36 && c == 0 {
        assert(key_value(36, 0) == 0xca3f2e00d291e3e9u64);
    } else if i == 36 && c == 1 {
        assert(key_value(36, 1) == 0x2f8381233652a6f6u64);
    } else if i == 37 && c == 0 {
        assert(key_value(37, 0) == 0xec4d240dc289633fu64);
    } else if i == 37 && c == 1 {
        assert(key_value(37, 1) == 0x13e2ab6dd20db314u64);
    } else if i == 38 && c == 0 {
        assert(key_value(38, 0) == 0xd7967b29e2e36685u64);
    } else if i == 38 && c == 1 {
        assert(key_value(38, 1) == 0x730ec816d93e0062u64);
    } else if i == 39 && c == 0 {
        assert(key_value(39, 0) == 0xe3ecd4374320af3bu64);
    } else if i == 39 && c == 1 {
        assert(key_value(39, 1) == 0x276e876e85041260u64);
    }
}

proof fn lemma_block_8(i: int, c: int)
    requires
        40 <= i < 45,
        0 <= c < 2,
        lcg_key(80) == 0x276e876e85041260u64,
    ensures
        key_value(i, c) == lcg_key((2 * i + c + 1) as nat),
{
    crate::engine::key_chain::lemma_steps_8();
    if i == 40 && c == 0 {
        assert(key_value(40, 0) == 0x7a08fe1d98b4dae1u64);
    } else if i == 40 && c == 1 {
        assert(key_value(40, 1) == 0x6bced9c0c155188eu64);
    } else if i == 41 && c == 0 {
        assert(key_value(41, 0) == 0x34435992a5c9c2f7u64);
    } else if i == 41 && c == 1 {
        assert(key_value(41, 1) == 0x4f4a94c109f2ce6cu64);
    } else if i == 42 && c == 0 {
        assert(key_value(42, 0) == 0x6fd0027468f1dcfdu64);
    } else if i == 42 && c == 1 {
        assert(key_value(42, 1) == 0xb2e30d602a665b7au64);
    } else if i == 43 && c == 0 {
        assert(key_value(43, 0) == 0x4fe37c1db1619a73u64);
    } else if i == 43 && c == 1 {
        assert(key_value(43, 1) == 0x8f418617a2b63338u64);
    } else if i == 44 && c == 0 {
        assert(key_value(44, 0) == 0x77aa77f86d07c8d9u64);
    } else if i == 44 && c == 1 {
        assert(key_value(44, 1) == 0xe8e73c0f594ef526u64);
    }
}

proof fn lemma_block_9(i: int, c: int)
    requires
        45 <= i < 50,
        0 <= c < 2,
        lcg_key(90) == 0xe8e73c0f594ef526u64,
    ensures
        key_value(i, c) == lcg_key((2 * i + c + 1) as nat),
{
    crate::engine::key_chain::lemma_steps_9();
    if i == 45 && c == 0 {
        assert(key_value(45, 0) == 0xc072e76ad59cf1afu64);
    } else if i == 45 && c == 1 {
        assert(key_value(45, 1) == 0x00e9e19c07574cc4u64);
    } else if i == 46 && c == 0 {
        assert(key_value(46, 0) == 0xfb8e8f1f7781ba75u64);
    } else if i == 46 && c == 1 {
        assert(key_value(46, 1) == 0x7465213e9f66d192u64);
    } else if i == 47 && c == 0 {
        assert(key_value(47, 0) == 0x160e34cf590444abu64);
    } else if i == 47 && c == 1 {
        assert(key_value(47, 1) == 0x711c47897f57e710u64);
    } else if i == 48 && c == 0 {
        assert(key_value(48, 0) == 0x2509ddea3a648dd1u64);
    } else if i == 48 && c == 1 {
        assert(key_value(48, 1) == 0xec762d81bcac9cbeu64);
    } else if i == 49 && c == 0 {
        assert(key_value(49, 0) == 0xc9ba10cd6eafcf67u64);
    } else if i == 49 && c == 1 {
        assert(key_value(49, 1) == 0x96a51d06f7be8e1cu64);
    }
}

proof fn lemma_block_10(i: int, c: int)
    requires
        50 <= i < 55,
        0 <= c < 2,
        lcg_key(100) == 0x96a51d06f7be8e1cu64,
    ensures
        key_value(i, c) == lcg_key((2 * i + c + 1) as nat),
{
    crate::engine::key_chain::lemma_steps_10();
    if i == 50 && c == 0 {
        assert(key_value(50, 0) == 0x1dd4fe261b4adeedu64);
    } else if i == 50 && c == 1 {
        assert(key_value(50, 1) == 0x4e6dc4a80cb1c2aau64);
    } else if i == 51 && c == 0 {
        assert(key_value(51, 0) == 0x480258f92fc38de3u64);
    } else if i == 51 && c == 1 {
        assert(key_value(51, 1) == 0x4b336a5761e28de8u64);
    } else if i == 52 && c == 0 {
        assert(key_value(52, 0) == 0x5a3257b1114109c9u64);
    } else if i == 52 && c == 1 {
        assert(key_value(52, 1) == 0xa5e3e7c6aa466f56u64);
    } else if i == 53 && c == 0 {
        assert(key_value(53, 0) == 0xf4eeda8f34ab3c1fu64);
    } else if i == 53 && c == 1 {
        assert(key_value(53, 1) == 0x6a9c114366f7f274u64);
    } else if i == 54 && c == 0 {
        assert(key_value(54, 0) == 0x3c2c319ca8612a65u64);
    } else if i == 54 && c == 1 {
        assert(key_value(54, 1) == 0x39fe00f675e58ec2u64);
    }
}

proof fn lemma_block_11(i: int, c: int)
    requires
        55 <= i < 60,
        0 <= c < 2,
        lcg_key(110) == 0x39fe00f675e58ec2u64,
    ensures
        key_value(i, c) == lcg_key((2 * i + c + 1) as nat),
{
    crate::engine::key_chain::lemma_steps_11();
    if i == 55 && c == 0 {
        assert(key_value(55, 0) == 0x4f6034e74a16561bu64);
    } else if i == 55 && c == 1 {
        assert(key_value(55, 1) == 0xf94ea9b83c5b87c0u64);
    } else if i == 56 && c == 0 {
        assert(key_value(56, 0) == 0x206665a7072f1cc1u64);
    } else if i == 56 && c == 1 {
        assert(key_value(56, 1) == 0xda87e7ceaae0cceeu64);
    } else if i == 57 && c == 0 {
        assert(key_value(57, 0) == 0x100c559d7db417d7u64);
    } else if i == 57 && c == 1 {
        assert(key_value(57, 1) == 0xb907ebbc249ed9ccu64);
    } else if i == 58 && c == 0 {
        assert(key_value(58, 0) == 0x64c5f83691b47cddu64);
    } else if i == 58 && c == 1 {
        assert(key_value(58, 1) == 0xb59dadd76f4c95dau64);
    } else if i == 59 && c == 0 {
        assert(key_value(59, 0) == 0x32a812777eaf7d53u64);
    } else if i == 59 && c == 1 {
        assert(key_value(59, 1) == 0x396c7fc9e9543498u64);
    }
}

proof fn lemma_block_12(i: int, c: int)
    requires
        60 <= i < 65,
        0 <= c < 2,
        lcg_key(120) == 0x396c7fc9e9543498u64,
    ensures
        key_value(i, c) == lcg_key((2 * i + c + 1) as nat),
{
    crate::engine::key_chain::lemma_steps_12();
    if i == 60 && c == 0 {
        assert(key_value(60, 0) == 0x67478d96865ca6b9u64);
    } else if i == 60 && c == 1 {
        assert(key_value(60, 1) == 0x050be80e8aac1586u64);
    } else if i == 61 && c == 0 {
        assert(key_value(61, 0) == 0x71024e740deb428fu64);
    } else if i == 61 && c == 1 {
        assert(key_value(61, 1) == 0x050b4e21599aa424u64);
    } else if i == 62 && c == 0 {
        assert(key_value(62, 0) == 0x52c78160b090b655u64);
    } else if i == 62 && c == 1 {
        assert(key_value(62, 1) == 0x681080e32f5d37f2u64);
    } else if i == 63 && c == 0 {
        assert(key_value(63, 0) == 0x016917d5f9fde38bu64);
    } else if i == 63 && c == 1 {
        assert(key_value(63, 1) == 0x7d8ab3639969f470u64);
    } else if i == 64 && c == 0 {
        assert(key_value(64, 0) == 0xa6ee688a0d1387b1u64);
    } else if i == 64 && c == 1 {
        assert(key_value(64, 1) == 0x22c4d38482c4a91eu64);
    }
}

proof fn lemma_block_13(i: int, c: int)
    requires
        65 <= i < 70,
        0 <= c < 2,
        lcg_key(130) == 0x22c4d38482c4a91eu64,
    ensures
        key_value(i, c) == lcg_key((2 * i + c + 1) as nat),
{
    crate::engine::key_chain::lemma_steps_13();
    if i == 65 && c == 0 {
        assert(key_value(65, 0) == 0x74babc1be2ed9c47u64);
    } else if i == 65 && c == 1 {
        assert(key_value(65, 1) == 0x22eda9a6cd9eb17cu64);
    } else if i == 66 && c == 0 {
        assert(key_value(66, 0) == 0x7c5cbf2dfc1db6cdu64);
    } else if i == 66 && c == 1 {
        assert(key_value(66, 1) == 0xbe1380c15039d50au64);
    } else if i == 67 && c == 0 {
        assert(key_value(67, 0) == 0x7c046071c1ac68c3u64);
    } else if i == 67 && c == 1 {
        assert(key_value(67, 1) == 0x6d2d91cd70c62748u64);
    } else if i == 68 && c == 0 {
        assert(key_value(68, 0) == 0x84728ab55d399fa9u64);
    } else if i == 68 && c == 1 {
        assert(key_value(68, 1) == 0x99f5ddc612b2e7b6u64);
    } else if i == 69 && c == 0 {
        assert(key_value(69, 0) == 0x99f57100ef5404ffu64);
    } else if i == 69 && c == 1 {
        assert(key_value(69, 1) == 0x43037e1a5caa61d4u64);
    }
}

proof fn lemma_block_14(i: int, c: int)
    requires
        70 <= i < 75,
        0 <= c < 2,
        lcg_key(140) == 0x43037e1a5caa61d4u64,
    ensures
        key_value(i, c) == lcg_key((2 * i + c + 1) as nat),
{
    crate::engine::key_chain::lemma_steps_14();
    if i == 70 && c == 0 {
        assert(key_value(70, 0) == 0x3f4c0514b0df5e45u64);
    } else if i == 70 && c == 1 {
        assert(key_value(70, 1) == 0x7961c0814130cd22u64);
    } else if i == 71 && c == 0 {
        assert(key_value(71, 0) == 0xd01edb572821ecfbu64);
    } else if i == 71 && c == 1 {
        assert(key_value(71, 1) == 0x15221d73549e2d20u64);
    } else if i == 72 && c == 0 {
        assert(key_value(72, 0) == 0xeecb08561bd0cea1u64);
    } else if i == 72 && c == 1 {
        assert(key_value(72, 1) == 0xbeca231c89eb314eu64);
    } else if i == 73 && c == 0 {
        assert(key_value(73, 0) == 0x8c856facc6335cb7u64);
    } else if i == 73 && c == 1 {
        assert(key_value(73, 1) == 0x398eab489c89152cu64);
    } else if i == 74 && c == 0 {
        assert(key_value(74, 0) == 0x23fb9839e8358cbdu64);
    } else if i == 74 && c == 1 {
        assert(key_value(74, 1) == 0x49bd6a8c683c803au64);
    }
}

proof fn lemma_block_15(i: int, c: int)
    requires
        75 <= i < 80,
        0 <= c < 2,
        lcg_key(150) == 0x49bd6a8c683c803au64,
    ensures
        key_value(i, c) == lcg_key((2 * i + c + 1) as nat),
{
    crate::engine::key_chain::lemma_steps_15();
    if i == 75 && c == 0 {
        assert(key_value(75, 0) == 0x2005d5de30015033u64);
    } else if i == 75 && c == 1 {
        assert(key_value(75, 1) == 0x8f80db68e8b365f8u64);
    } else if i == 76 && c == 0 {
        assert(key_value(76, 0) == 0x67d59c29e076f499u64);
    } else if i == 76 && c == 1 {
        assert(key_value(76, 1) == 0x5e7c0276414de5e6u64);
    } else if i == 77 && c == 0 {
        assert(key_value(77, 0) == 0x32d2dd34369c836fu64);
    } else if i == 77 && c == 1 {
        assert(key_value(77, 1) == 0x4f4fefe5b2522b84u64);
    } else if i == 78 && c == 0 {
        assert(key_value(78, 0) == 0x3960c3c99fdc2235u64);
    } else if i == 78 && c == 1 {
        assert(key_value(78, 1) == 0xdc045d57f3834e52u64);
    } else if i == 79 && c == 0 {
        assert(key_value(79, 0) == 0x343bad5adfa9726bu64);
    } else if i == 79 && c == 1 {
        assert(key_value(79, 1) == 0x777a2254bcd331d0u64);
    }
}

proof fn lemma_block_16(i: int, c: int)
    requires
        80 <= i < 85,
        0 <= c < 2,
        lcg_key(160) == 0x777a2254bcd331d0u64,
    ensures
        key_value(i, c) == lcg_key((2 * i + c + 1) as nat),
{
    crate::engine::key_chain::lemma_steps_16();
    if i == 80 && c == 0 {
        assert(key_value(80, 0) == 0x7a4aadd7b4e5f191u64);
    } else if i == 80 && c == 1 {
        assert(key_value(80, 1) == 0x0129c9b284a7657eu64);
    } else if i == 81 && c == 0 {
        assert(key_value(81, 0) == 0x9eb7dae5d71c5927u64);
    } else if i == 81 && c == 1 {
        assert(key_value(81, 1) == 0x31d7f5f057e904dcu64);
    } else if i == 82 && c == 0 {
        assert(key_value(82, 0) == 0x1b285999316afeadu64);
    } else if i == 82 && c == 1 {
        assert(key_value(82, 1) == 0x22a8eebc5ad7976au64);
    } else if i == 83 && c == 0 {
        assert(key_value(83, 0) == 0x917aee3d84b533a3u64);
    } else if i == 83 && c == 1 {
        assert(key_value(83, 1) == 0xe3a4de18aa56f0a8u64);
    } else if i == 84 && c == 0 {
        assert(key_value(84, 0) == 0x18e6a86b0473a589u64);
    } else if i == 84 && c == 1 {
        assert(key_value(84, 1) == 0x14284b8e2c301016u64);
    }
}

proof fn lemma_block_17(i: int, c: int)
    requires
        85 <= i < 90,
        0 <= c < 2,
        lcg_key(170) == 0x14284b8e2c301016u64,
    ensures
        key_value(i, c) == lcg_key((2 * i + c + 1) as nat),
{
    crate::engine::key_chain::lemma_steps_17();
    if i == 85 && c == 0 {
        assert(key_value(85, 0) == 0xf22c9887813bbddfu64);
    } else if i == 85 && c == 1 {
        assert(key_value(85, 1) == 0x16c5e945117d0134u64);
    } else if i == 86 && c == 0 {
        assert(key_value(86, 0) == 0xef7a551239d60225u64);
    } else if i == 86 && c == 1 {
        assert(key_value(86, 1) == 0x3fdad5989137bb82u64);
    } else if i == 87 && c == 0 {
        assert(key_value(87, 0) == 0x0ffd2ad0e77b73dbu64);
    } else if i == 87 && c == 1 {
        assert(key_value(87, 1) == 0xa378a44d61a40280u64);
    } else if i == 88 && c == 0 {
        assert(key_value(88, 0) == 0x76743abdfb91f081u64);
    } else if i == 88 && c == 1 {
        assert(key_value(88, 1) == 0xd5888d36e60c45aeu64);
    } else if i == 89 && c == 0 {
        assert(key_value(89, 0) == 0xc2eeb030bcff9197u64);
    } else if i == 89 && c == 1 {
        assert(key_value(89, 1) == 0x7a4e89d79309808cu64);
    }
}

proof fn lemma_block_18(i: int, c: int)
    requires
        90 <= i < 95,
        0 <= c < 2,
        lcg_key(180) == 0x7a4e89d79309808cu64,
    ensures
        key_value(i, c) == lcg_key((2 * i + c + 1) as nat),
{
    crate::engine::key_chain::lemma_steps_18();
    if i == 90 && c == 0 {
        assert(key_value(90, 0) == 0x63cc9c23f0ed0c9du64);
    } else if i == 90 && c == 1 {
        assert(key_value(90, 1) == 0xd83cbc26e64e1a9au64);
    } else if i == 91 && c == 0 {
        assert(key_value(91, 0) == 0x7ad70f846e8f1313u64);
    } else if i == 91 && c == 1 {
        assert(key_value(91, 1) == 0xffbeb66727abc758u64);
    } else if i == 92 && c == 0 {
        assert(key_value(92, 0) == 0x60de3d71574eb279u64);
    } else if i == 92 && c == 1 {
        assert(key_value(92, 1) == 0x1ba8e84b2fcc6646u64);
    } else if i == 93 && c == 0 {
        assert(key_value(93, 0) == 0xd27054901c68b44fu64);
    } else if i == 93 && c == 1 {
        assert(key_value(93, 1) == 0xb743f7c855d5e2e4u64);
    } else if i == 94 && c == 0 {
        assert(key_value(94, 0) == 0xbcf297b8f0dbfe15u64);
    } else if i == 94 && c == 1 {
        assert(key_value(94, 1) == 0x678b982997f114b2u64);
    }
}

proof fn lemma_block_19(i: int, c: int)
    requires
        95 <= i < 100,
        0 <= c < 2,
        lcg_key(190) == 0x678b982997f114b2u64,
    ensures
        key_value(i, c) == lcg_key((2 * i + c + 1) as nat),
{
    crate::engine::key_chain::lemma_steps_19();
    if i == 95 && c == 0 {
        assert(key_value(95, 0) == 0x96c3ae70323ef14bu64);
    } else if i == 95 && c == 1 {
        assert(key_value(95, 1) == 0x5dee2719c36b9f30u64);
    } else if i == 96 && c == 0 {
        assert(key_value(96, 0) == 0xdc1a13cfa4d3cb71u64);
    } else if i == 96 && c == 1 {
        assert(key_value(96, 1) == 0xdb16c4ccffecd1deu64);
    } else if i == 97 && c == 0 {
        assert(key_value(97, 0) == 0xa1d40a2986f40607u64);
    } else if i == 97 && c == 1 {
        assert(key_value(97, 1) == 0x80671c4c5df5883cu64);
    } else if i == 98 && c == 0 {
        assert(key_value(98, 0) == 0x227f92ef6daab68du64);
    } else if i == 98 && c == 1 {
        assert(key_value(98, 1) == 0x2bd898d513a309cau64);
    } else if i == 99 && c == 0 {
        assert(key_value(99, 0) == 0xc0a4a7810015ee83u64);
    } else if i == 99 && c == 1 {
        assert(key_value(99, 1) == 0xc0c8c9519b6cea08u64);
    }
}

proof fn lemma_block_20(i: int, c: int)
    requires
        100 <= i < 105,
        0 <= c < 2,
        lcg_key(200) == 0xc0c8c9519b6cea08u64,
    ensures
        key_value(i, c) == lcg_key((2 * i + c + 1) as nat),
{
    crate::engine::key_chain::lemma_steps_20();
    if i == 100 && c == 0 {
        assert(key_value(100, 0) == 0xd38b6eb9f0e71b69u64);
    } else if i == 100 && c == 1 {
        assert(key_value(100, 1) == 0x64276d4d1f55e876u64);
    } else if i == 101 && c == 0 {
        assert(key_value(101, 0) == 0x2e588bdb751a66bfu64);
    } else if i == 101 && c == 1 {
        assert(key_value(101, 1) == 0x8a728f1d2fc7d094u64);
    } else if i == 102 && c == 0 {
        assert(key_value(102, 0) == 0xd90f7e11dcbd1605u64);
    } else if i == 102 && c == 1 {
        assert(key_value(102, 1) == 0x3b00451de81259e2u64);
    } else if i == 103 && c == 0 {
        assert(key_value(103, 0) == 0x060ab67a4e5aeabbu64);
    } else if i == 103 && c == 1 {
        assert(key_value(103, 1) == 0xdfbbd7d8034507e0u64);
    } else if i == 104 && c == 0 {
        assert(key_value(104, 0) == 0x224f627be76a8261u64);
    } else if i == 104 && c == 1 {
        assert(key_value(104, 1) == 0x4f4f765532dc0a0eu64);
    }
}

proof fn lemma_block_21(i: int, c: int)
    requires
        105 <= i < 110,
        0 <= c < 2,
        lcg_key(210) == 0x4f4f765532dc0a0eu64,
    ensures
        key_value(i, c) == lcg_key((2 * i + c + 1) as nat),
{
    crate::engine::key_chain::lemma_steps_21();
    if i == 105 && c == 0 {
        assert(key_value(105, 0) == 0x300d1ab91bd0b677u64);
    } else if i == 105 && c == 1 {
        assert(key_value(105, 1) == 0xe9cf2ce6f5781becu64);
    } else if i == 106 && c == 0 {
        assert(key_value(106, 0) == 0x2a63d80e0c52fc7du64);
    } else if i == 106 && c == 1 {
        assert(key_value(106, 1) == 0x065c47d0669964fau64);
    } else if i == 107 && c == 0 {
        assert(key_value(107, 0) == 0xb0e94bbc1f90c5f3u64);
    } else if i == 107 && c == 1 {
        assert(key_value(107, 1) == 0x76736578b91558b8u64);
    } else if i == 108 && c == 0 {
        assert(key_value(108, 0) == 0x2b5dc22562dbe059u64);
    } else if i == 108 && c == 1 {
        assert(key_value(108, 1) == 0xc28bc0d674bf96a6u64);
    } else if i == 109 && c == 0 {
        assert(key_value(109, 0) == 0x4a7fd1078807d52fu64);
    } else if i == 109 && c == 1 {
        assert(key_value(109, 1) == 0x635f3fead47dca44u64);
    }
}

proof fn lemma_block_22(i: int, c: int)
    requires
        110 <= i < 115,
        0 <= c < 2,
        lcg_key(220) == 0x635f3fead47dca44u64,
    ensures
        key_value(i, c) == lcg_key((2 * i + c + 1) as nat),
{
    crate::engine::key_chain::lemma_steps_22();
    if i == 110 && c == 0 {
        assert(key_value(110, 0) == 0x41a01ee8ab0849f5u64);
    } else if i == 110 && c == 1 {
        assert(key_value(110, 1) == 0x9e246197f4be8b12u64);
    } else if i == 111 && c == 0 {
        assert(key_value(111, 0) == 0x95a7287ad5f6602bu64);
    } else if i == 111 && c == 1 {
        assert(key_value(111, 1) == 0xe80d9e3e930b3c90u64);
    } else if i == 112 && c == 0 {
        assert(key_value(112, 0) == 0x723bacc76bd51551u64);
    } else if i == 112 && c == 1 {
        assert(key_value(112, 1) == 0x16b046231e2cee3eu64);
    } else if i == 113 && c == 0 {
        assert(key_value(113, 0) == 0x81c49febaa2ca2e7u64);
    } else if i == 113 && c == 1 {
        assert(key_value(113, 1) == 0xcdc920cb731c3b9cu64);
    } else if i == 114 && c == 0 {
        assert(key_value(114, 0) == 0x11593d6b3f54de6du64);
    } else if i == 114 && c == 1 {
        assert(key_value(114, 1) == 0xc6c90bdc0db42c2au64);
    }
}

proof fn lemma_block_23(i: int, c: int)
    requires
        115 <= i < 120,
        0 <= c < 2,
        lcg_key(230) == 0xc6c90bdc0db42c2au64,
    ensures
        key_value(i, c) == lcg_key((2 * i + c + 1) as nat),
{
    crate::engine::key_chain::lemma_steps_23();
    if i == 115 && c == 0 {
        assert(key_value(115, 0) == 0x756c82d6f7069963u64);
    } else if i == 115 && c == 1 {
        assert(key_value(115, 1) == 0xb81db31d5ce01368u64);
    } else if i == 116 && c == 0 {
        assert(key_value(116, 0) == 0xda882ab2a88c0149u64);
    } else if i == 116 && c == 1 {
        assert(key_value(116, 1) == 0x6d129ab880bc70d6u64);
    } else if i == 117 && c == 0 {
        assert(key_value(117, 0) == 0xbb03671751a7ff9fu64);
    } else if i == 117 && c == 1 {
        assert(key_value(117, 1) == 0x80089239ade2cff4u64);
    } else if i == 118 && c == 0 {
        assert(key_value(118, 0) == 0x6884fa0a8f0c99e5u64);
    } else if i == 118 && c == 1 {
        assert(key_value(118, 1) == 0x93628218f3d8a842u64);
    } else if i == 119 && c == 0 {
        assert(key_value(119, 0) == 0x321bfa02def8519bu64);
    } else if i == 119 && c == 1 {
        assert(key_value(119, 1) == 0x0748f21ee5593d40u64);
    }
}

proof fn lemma_block_24(i: int, c: int)
    requires
        120 <= i < 125,
        0 <= c < 2,
        lcg_key(240) == 0x0748f21ee5593d40u64,
    ensures
        key_value(i, c) == lcg_key((2 * i + c + 1) as nat),
{
    crate::engine::key_chain::lemma_steps_24();
    if i == 120 && c == 0 {
        assert(key_value(120, 0) == 0x5052a2953c528441u64);
    } else if i == 120 && c == 1 {
        assert(key_value(120, 1) == 0x7d136bdfcff27e6eu64);
    } else if i == 121 && c == 0 {
        assert(key_value(121, 0) == 0x58dd1583185ecb57u64);
    } else if i == 121 && c == 1 {
        assert(key_value(121, 1) == 0x9e11cef77d2ce74cu64);
    } else if i == 122 && c == 0 {
        assert(key_value(122, 0) == 0xaa6870c376df5c5du64);
    } else if i == 122 && c == 1 {
        assert(key_value(122, 1) == 0x68142a1a12365f5au64);
    } else if i == 123 && c == 0 {
        assert(key_value(123, 0) == 0xaced9e64643e68d3u64);
    } else if i == 123 && c == 1 {
        assert(key_value(123, 1) == 0x132e0de93bc81a18u64);
    } else if i == 124 && c == 0 {
        assert(key_value(124, 0) == 0x4b21d01617167e39u64);
    } else if i == 124 && c == 1 {
        assert(key_value(124, 1) == 0xae2e2aeb9abf7706u64);
    }
}

proof fn lemma_block_25(i: int, c: int)
    requires
        125 <= i < 130,
        0 <= c < 2,
        lcg_key(250) == 0xae2e2aeb9abf7706u64,
    ensures
        key_value(i, c) == lcg_key((2 * i + c + 1) as nat),
{
    crate::engine::key_chain::lemma_steps_25();
    if i == 125 && c == 0 {
        assert(key_value(125, 0) == 0xdc79fa033e31e60fu64);
    } else if i == 125 && c == 1 {
        assert(key_value(125, 1) == 0x2f9d4e670aa1e1a4u64);
    } else if i == 126 && c == 0 {
        assert(key_value(126, 0) == 0x90161f6c31d905d5u64);
    } else if i == 126 && c == 1 {
        assert(key_value(126, 1) == 0x6359ae3c0e03b172u64);
    } else if i == 127 && c == 0 {
        assert(key_value(127, 0) == 0x822985606b07bf0bu64);
    } else if i == 127 && c == 1 {
        assert(key_value(127, 1) == 0x2849f0341d8a09f0u64);
    } else if i == 128 && c == 0 {
        assert(key_value(128, 0) == 0x71efbf4bb4e1cf31u64);
    } else if i == 128 && c == 1 {
        assert(key_value(128, 1) == 0x337b9f97f4ffba9eu64);
    } else if i == 129 && c == 0 {
        assert(key_value(129, 0) == 0x8be55a45747e2fc7u64);
    } else if i == 129 && c == 1 {
        assert(key_value(129, 1) == 0xcdcaa89bf6b51efcu64);
    }
}

proof fn lemma_block_26(i: int, c: int)
    requires
        130 <= i < 135,
        0 <= c < 2,
        lcg_key(260) == 0xcdcaa89bf6b51efcu64,
    ensures
        key_value(i, c) == lcg_key((2 * i + c + 1) as nat),
{
    crate::engine::key_chain::lemma_steps_26();
    if i == 130 && c == 0 {
        assert(key_value(130, 0) == 0x936401b810e1764du64);
    } else if i == 130 && c == 1 {
        assert(key_value(130, 1) == 0xed538f9c8822fe8au64);
    } else if i == 131 && c == 0 {
        assert(key_value(131, 0) == 0x7ce0cc3e68bf3443u64);
    } else if i == 131 && c == 1 {
        assert(key_value(131, 1) == 0x18e1a38393886cc8u64);
    } else if i == 132 && c == 0 {
        assert(key_value(132, 0) == 0xad1b222c4d5a5729u64);
    } else if i == 132 && c == 1 {
        assert(key_value(132, 1) == 0x4e6639d350fba936u64);
    } else if i == 133 && c == 0 {
        assert(key_value(133, 0) == 0x164b0e85999c887fu64);
    } else if i == 133 && c == 1 {
        assert(key_value(133, 1) == 0x4f8ebfa4ce25ff54u64);
    } else if i == 134 && c == 0 {
        assert(key_value(134, 0) == 0x62e7a7eba23c8dc5u64);
    } else if i == 134 && c == 1 {
        assert(key_value(134, 1) == 0xce6f80dd8ea2a6a2u64);
    }
}

proof fn lemma_block_27(i: int, c: int)
    requires
        135 <= i < 140,
        0 <= c < 2,
        lcg_key(270) == 0xce6f80dd8ea2a6a2u64,
    ensures
        key_value(i, c) == lcg_key((2 * i + c + 1) as nat),
{
    crate::engine::key_chain::lemma_steps_27();
    if i == 135 && c == 0 {
        assert(key_value(135, 0) == 0xe47f9151d78ba87bu64);
    } else if i == 135 && c == 1 {
        assert(key_value(135, 1) == 0xeb30e93dbfb8a2a0u64);
    } else if i == 136 && c == 0 {
        assert(key_value(136, 0) == 0xd43f1ed57341f621u64);
    } else if i == 136 && c == 1 {
        assert(key_value(136, 1) == 0x4978b1f608e7a2ceu64);
    } else if i == 137 && c == 0 {
        assert(key_value(137, 0) == 0x146a40076461d037u64);
    } else if i == 137 && c == 1 {
        assert(key_value(137, 1) == 0x6b986882af7fe2acu64);
    } else if i == 138 && c == 0 {
        assert(key_value(138, 0) == 0xbbc018ff490a2c3du64);
    } else if i == 138 && c == 1 {
        assert(key_value(138, 1) == 0x23b07ce2be3d09bau64);
    } else if i == 139 && c == 0 {
        assert(key_value(139, 0) == 0x7647465799cffbb3u64);
    } else if i == 139 && c == 1 {
        assert(key_value(139, 1) == 0x8a2bf1f1da9c0b78u64);
    }
}

proof fn lemma_block_28(i: int, c: int)
    requires
        140 <= i < 145,
        0 <= c < 2,
        lcg_key(280) == 0x8a2bf1f1da9c0b78u64,
    ensures
        key_value(i, c) == lcg_key((2 * i + c + 1) as nat),
{
    crate::engine::key_chain::lemma_steps_28();
    if i == 140 && c == 0 {
        assert(key_value(140, 0) == 0xbebf774923f68c19u64);
    } else if i == 140 && c == 1 {
        assert(key_value(140, 1) == 0xe3dbd52e98640766u64);
    } else if i == 141 && c == 0 {
        assert(key_value(141, 0) == 0x8dab8022ff9ee6efu64);
    } else if i == 141 && c == 1 {
        assert(key_value(141, 1) == 0x90a23b05209a2904u64);
    } else if i == 142 && c == 0 {
        assert(key_value(142, 0) == 0xcbeaaeae44c631b5u64);
    } else if i == 142 && c == 1 {
        assert(key_value(142, 1) == 0x9d3e47ae13d887d2u64);
    } else if i == 143 && c == 0 {
        assert(key_value(143, 0) == 0xf7add2b54dab0debu64);
    } else if i == 143 && c == 1 {
        assert(key_value(143, 1) == 0x1b5b666660c00750u64);
    } else if i == 144 && c == 0 {
        assert(key_value(144, 0) == 0xfe36a4fe46f1f911u64);
    } else if i == 144 && c == 1 {
        assert(key_value(144, 1) == 0x10d242a885fd36feu64);
    }
}

proof fn lemma_block_29(i: int, c: int)
    requires
        145 <= i < 150,
        0 <= c < 2,
        lcg_key(290) == 0x10d242a885fd36feu64,
    ensures
        key_value(i, c) == lcg_key((2 * i + c + 1) as nat),
{
    crate::engine::key_chain::lemma_steps_29();
    if i == 145 && c == 0 {
        assert(key_value(145, 0) == 0xb42f3d7295a0aca7u64);
    } else if i == 145 && c == 1 {
        assert(key_value(145, 1) == 0x5e8af4801418325cu64);
    } else if i == 146 && c == 0 {
        assert(key_value(146, 0) == 0x0997efb028c87e2du64);
    } else if i == 146 && c == 1 {
        assert(key_value(146, 1) == 0x84feda426e0780eau64);
    } else if i == 147 && c == 0 {
        assert(key_value(147, 0) == 0x48a248089077bf23u64);
    } else if i == 147 && c == 1 {
        assert(key_value(147, 1) == 0xc76f80c4703df628u64);
    } else if i == 148 && c == 0 {
        assert(key_value(148, 0) == 0x0f4d34629d4a1d09u64);
    } else if i == 148 && c == 1 {
        assert(key_value(148, 1) == 0x53335cb3fcab9196u64);
    } else if i == 149 && c == 0 {
        assert(key_value(149, 0) == 0x102b246ecbb0015fu64);
    } else if i == 149 && c == 1 {
        assert(key_value(149, 1) == 0xfdeaf6121ee95eb4u64);
    }
}

proof fn lemma_block_30(i: int, c: int)
    requires
        150 <= i < 155,
        0 <= c < 2,
        lcg_key(300) == 0xfdeaf6121ee95eb4u64,
    ensures
        key_value(i, c) == lcg_key((2 * i + c + 1) as nat),
{
    crate::engine::key_chain::lemma_steps_30();
    if i == 150 && c == 0 {
        assert(key_value(150, 0) == 0x8056ba1ac3c4f1a5u64);
    } else if i == 150 && c == 1 {
        assert(key_value(150, 1) == 0x26692531be885502u64);
    } else if i == 151 && c == 0 {
        assert(key_value(151, 0) == 0x59126f34324cef5bu64);
    } else if i == 151 && c == 1 {
        assert(key_value(151, 1) == 0x352c5df6563b3800u64);
    } else if i == 152 && c == 0 {
        assert(key_value(152, 0) == 0x7f2c562c2130d801u64);
    } else if i == 152 && c == 1 {
        assert(key_value(152, 1) == 0xaedcc7f41553772eu64);
    } else if i == 153 && c == 0 {
        assert(key_value(153, 0) == 0xee3838882d91c517u64);
    } else if i == 153 && c == 1 {
        assert(key_value(153, 1) == 0x4f77dbf0ddc90e0cu64);
    } else if i == 154 && c == 0 {
        assert(key_value(154, 0) == 0x22bdd5aa774b6c1du64);
    } else if i == 154 && c == 1 {
        assert(key_value(154, 1) == 0x487a983cebc5641au64);
    }
}

proof fn lemma_block_31(i: int, c: int)
    requires
        155 <= i < 160,
        0 <= c < 2,
        lcg_key(310) == 0x487a983cebc5641au64,
    ensures
        key_value(i, c) == lcg_key((2 * i + c + 1) as nat),
{
    crate::engine::key_chain::lemma_steps_31();
    if i == 155 && c == 0 {
        assert(key_value(155, 0) == 0x71dc2fd9597d7e93u64);
    } else if i == 155 && c == 1 {
        assert(key_value(155, 1) == 0x8bb9f00f4c692cd8u64);
    } else if i == 156 && c == 0 {
        assert(key_value(156, 0) == 0x2ef03e17d57409f9u64);
    } else if i == 156 && c == 1 {
        assert(key_value(156, 1) == 0x84f68159d04547c6u64);
    } else if i == 157 && c == 0 {
        assert(key_value(157, 0) == 0x06d76a8b8906d7cfu64);
    } else if i == 157 && c == 1 {
        assert(key_value(157, 1) == 0x8e01f7f18abea064u64);
    } else if i == 158 && c == 0 {
        assert(key_value(158, 0) == 0x2925436eff47cd95u64);
    } else if i == 158 && c == 1 {
        assert(key_value(158, 1) == 0x7f1af82b62550e32u64);
    } else if i == 159 && c == 0 {
        assert(key_value(159, 0) == 0x1399c7ea96184ccbu64);
    } else if i == 159 && c == 1 {
        assert(key_value(159, 1) == 0x5c001352668534b0u64);
    }
}

proof fn lemma_block_32(i: int, c: int)
    requires
        160 <= i < 165,
        0 <= c < 2,
        lcg_key(320) == 0x5c001352668534b0u64,
    ensures
        key_value(i, c) == lcg_key((2 * i + c + 1) as nat),
{
    crate::engine::key_chain::lemma_steps_32();
    if i == 160 && c == 0 {
        assert(key_value(160, 0) == 0x1250807404fd92f1u64);
    } else if i == 160 && c == 1 {
        assert(key_value(160, 1) == 0x43c3da71bebd635eu64);
    } else if i == 161 && c == 0 {
        assert(key_value(161, 0) == 0xc65e20df394c1987u64);
    } else if i == 161 && c == 1 {
        assert(key_value(161, 1) == 0x0e359e43c29d75bcu64);
    } else if i == 162 && c == 0 {
        assert(key_value(162, 0) == 0x7e88561aa981f60du64);
    } else if i == 162 && c == 1 {
        assert(key_value(162, 1) == 0xe4ff3ec05679b34au64);
    } else if i == 163 && c == 0 {
        assert(key_value(163, 0) == 0xdd4ef4c6e5683a03u64);
    } else if i == 163 && c == 1 {
        assert(key_value(163, 1) == 0xa3be382eafd8af88u64);
    } else if i == 164 && c == 0 {
        assert(key_value(164, 0) == 0x701c3193f25352e9u64);
    } else if i == 164 && c == 1 {
        assert(key_value(164, 1) == 0xcffe8a4a5c6429f6u64);
    }
}

proof fn lemma_block_33(i: int, c: int)
    requires
        165 <= i < 170,
        0 <= c < 2,
        lcg_key(330) == 0xcffe8a4a5c6429f6u64,
    ensures
        key_value(i, c) == lcg_key((2 * i + c + 1) as nat),
{
    crate::engine::key_chain::lemma_steps_33();
    if i == 165 && c == 0 {
        assert(key_value(165, 0) == 0xf37e8de7629a6a3fu64);
    } else if i == 165 && c == 1 {
        assert(key_value(165, 1) == 0xa6eeb0147a84ee14u64);
    } else if i == 166 && c == 0 {
        assert(key_value(166, 0) == 0xc236cbf1fd1dc585u64);
    } else if i == 166 && c == 1 {
        assert(key_value(166, 1) == 0xf35f8b73b5a1b362u64);
    } else if i == 167 && c == 0 {
        assert(key_value(167, 0) == 0x30a6930aa574263bu64);
    } else if i == 167 && c == 1 {
        assert(key_value(167, 1) == 0x1910dd4678b8fd60u64);
    } else if i == 168 && c == 0 {
        assert(key_value(168, 0) == 0x30fc140af71729e1u64);
    } else if i == 168 && c == 1 {
        assert(key_value(168, 1) == 0xb12b77f918cdfb8eu64);
    } else if i == 169 && c == 0 {
        assert(key_value(169, 0) == 0x9467d09f1da6a9f7u64);
    } else if i == 169 && c == 1 {
        assert(key_value(169, 1) == 0xff9aa48f2560696cu64);
    }
}

proof fn lemma_block_34(i: int, c: int)
    requires
        170 <= i < 175,
        0 <= c < 2,
        lcg_key(340) == 0xff9aa48f2560696cu64,
    ensures
        key_value(i, c) == lcg_key((2 * i + c + 1) as nat),
{
    crate::engine::key_chain::lemma_steps_34();
    if i == 170 && c == 0 {
        assert(key_value(170, 0) == 0xddd4c919d21b1bfdu64);
    } else if i == 170 && c == 1 {
        assert(key_value(170, 1) == 0xdd108e54c7e76e7au64);
    } else if i == 171 && c == 0 {
        assert(key_value(171, 0) == 0xb2cad604787ef173u64);
    } else if i == 171 && c == 1 {
        assert(key_value(171, 1) == 0x0c08b557d4077e38u64);
    } else if i == 172 && c == 0 {
        assert(key_value(172, 0) == 0xa7e5a44d1386f7d9u64);
    } else if i == 172 && c == 1 {
        assert(key_value(172, 1) == 0x0925f28410fb3826u64);
    } else if i == 173 && c == 0 {
        assert(key_value(173, 0) == 0x0c96b3349321b8afu64);
    } else if i == 173 && c == 1 {
        assert(key_value(173, 1) == 0x7aff7d73096747c4u64);
    } else if i == 174 && c == 0 {
        assert(key_value(174, 0) == 0xb576aec1d8d5d975u64);
    } else if i == 174 && c == 1 {
        assert(key_value(174, 1) == 0x00a1513c81914492u64);
    }
}

proof fn lemma_block_35(i: int, c: int)
    requires
        175 <= i < 180,
        0 <= c < 2,
        lcg_key(350) == 0x00a1513c81914492u64,
    ensures
        key_value(i, c) == lcg_key((2 * i + c + 1) as nat),
{
    crate::engine::key_chain::lemma_steps_35();
    if i == 175 && c == 0 {
        assert(key_value(175, 0) == 0x806d0b7c18877babu64);
    } else if i == 175 && c == 1 {
        assert(key_value(175, 1) == 0x8d2acd9c44b19210u64);
    } else if i == 176 && c == 0 {
        assert(key_value(176, 0) == 0x265d4a12edfc9cd1u64);
    } else if i == 176 && c == 1 {
        assert(key_value(176, 1) == 0xd2d0b0b678d83fbeu64);
    } else if i == 177 && c == 0 {
        assert(key_value(177, 0) == 0x72506b3607387667u64);
    } else if i == 177 && c == 1 {
        assert(key_value(177, 1) == 0x62479932c59ce91cu64);
    } else if i == 178 && c == 0 {
        assert(key_value(178, 0) == 0xb56d61699185ddedu64);
    } else if i == 178 && c == 1 {
        assert(key_value(178, 1) == 0x0d3dd635849195aau64);
    } else if i == 179 && c == 0 {
        assert(key_value(179, 0) == 0x6cabec391ac8a4e3u64);
    } else if i == 179 && c == 1 {
        assert(key_value(179, 1) == 0xfbd959f59b3098e8u64);
    }
}

proof fn lemma_block_36(i: int, c: int)
    requires
        180 <= i < 185,
        0 <= c < 2,
        lcg_key(360) == 0xfbd959f59b3098e8u64,
    ensures
        key_value(i, c) == lcg_key((2 * i + c + 1) as nat),
{
    crate::engine::key_chain::lemma_steps_36();
    if i == 180 && c == 0 {
        assert(key_value(180, 0) == 0x198b699f426df8c9u64);
    } else if i == 180 && c == 1 {
        assert(key_value(180, 1) == 0xb65f3225b4bd7256u64);
    } else if i == 181 && c == 0 {
        assert(key_value(181, 0) == 0xbdb4069dd513c31fu64);
    } else if i == 181 && c == 1 {
        assert(key_value(181, 1) == 0x0c4e31540750ad74u64);
    } else if i == 182 && c == 0 {
        assert(key_value(182, 0) == 0x8c809e3db3bf0965u64);
    } else if i == 182 && c == 1 {
        assert(key_value(182, 1) == 0x4ae0acbfd206c1c2u64);
    } else if i == 183 && c == 0 {
        assert(key_value(183, 0) == 0x776fbd77a3394d1bu64);
    } else if i == 183 && c == 1 {
        assert(key_value(183, 1) == 0x34d4f4fe0309f2c0u64);
    } else if i == 184 && c == 0 {
        assert(key_value(184, 0) == 0xc29678c3c1ecebc1u64);
    } else if i == 184 && c == 1 {
        assert(key_value(184, 1) == 0x1948f16d22ef2feeu64);
    }
}

proof fn lemma_block_37(i: int, c: int)
    requires
        185 <= i < 190,
        0 <= c < 2,
        lcg_key(370) == 0x1948f16d22ef2feeu64,
    ensures
        key_value(i, c) == lcg_key((2 * i + c + 1) as nat),
{
    crate::engine::key_chain::lemma_steps_37();
    if i == 185 && c == 0 {
        assert(key_value(185, 0) == 0xa48430cb5a587ed7u64);
    } else if i == 185 && c == 1 {
        assert(key_value(185, 1) == 0x891988856f9df4ccu64);
    } else if i == 186 && c == 0 {
        assert(key_value(186, 0) == 0x97a6854c05f13bddu64);
    } else if i == 186 && c == 1 {
        assert(key_value(186, 1) == 0x4ccc62562bbb28dau64);
    } else if i == 187 && c == 0 {
        assert(key_value(187, 0) == 0xa5a90339080c5453u64);
    } else if i == 187 && c == 1 {
        assert(key_value(187, 1) == 0x26b122d1404eff98u64);
    } else if i == 188 && c == 0 {
        assert(key_value(188, 0) == 0xc8e29d43622755b9u64);
    } else if i == 188 && c == 1 {
        assert(key_value(188, 1) == 0xbb5d4666951dd886u64);
    } else if i == 189 && c == 0 {
        assert(key_value(189, 0) == 0xde50b236d2a7898fu64);
    } else if i == 189 && c == 1 {
        assert(key_value(189, 1) == 0x81d958a0a8ec1f24u64);
    }
}

proof fn lemma_block_38(i: int, c: int)
    requires
        190 <= i < 195,
        0 <= c < 2,
        lcg_key(380) == 0x81d958a0a8ec1f24u64,
    ensures
        key_value(i, c) == lcg_key((2 * i + c + 1) as nat),
{
    crate::engine::key_chain::lemma_steps_38();
    if i == 190 && c == 0 {
        assert(key_value(190, 0) == 0xe7687c0ba4e85555u64);
    } else if i == 190 && c == 1 {
        assert(key_value(190, 1) == 0xd0b48d5b25a52af2u64);
    } else if i == 191 && c == 0 {
        assert(key_value(191, 0) == 0x68a0371e65309a8bu64);
    } else if i == 191 && c == 1 {
        assert(key_value(191, 1) == 0xc50fbe251d1d1f70u64);
    } else if i == 192 && c == 0 {
        assert(key_value(192, 0) == 0x75dcb3f01ce716b1u64);
    } else if i == 192 && c == 1 {
        assert(key_value(192, 1) == 0x94a5dde579e5cc1eu64);
    } else if i == 193 && c == 0 {
        assert(key_value(193, 0) == 0x0a6c7d6e231dc347u64);
    } else if i == 193 && c == 1 {
        assert(key_value(193, 1) == 0x16a4f58eac6e8c7cu64);
    } else if i == 194 && c == 0 {
        assert(key_value(194, 0) == 0xd89d0177bb4c35cdu64);
    } else if i == 194 && c == 1 {
        assert(key_value(194, 1) == 0x6b282453e767280au64);
    }
}

proof fn lemma_block_39(i: int, c: int)
    requires
        195 <= i < 200,
        0 <= c < 2,
        lcg_key(390) == 0x6b282453e767280au64,
    ensures
        key_value(i, c) == lcg_key((2 * i + c + 1) as nat),
{
    crate::engine::key_chain::lemma_steps_39();
    if i == 195 && c == 0 {
        assert(key_value(195, 0) == 0xe811e33b1fd0ffc3u64);
    } else if i == 195 && c == 1 {
        assert(key_value(195, 1) == 0x39f0a807071db248u64);
    } else if i == 196 && c == 0 {
        assert(key_value(196, 0) == 0x2bc9f1a21f920ea9u64);
    } else if i == 196 && c == 1 {
        assert(key_value(196, 1) == 0x24394b3ab64f6ab6u64);
    } else if i == 197 && c == 0 {
        assert(key_value(197, 0) == 0x12f143a895d40bffu64);
    } else if i == 197 && c == 1 {
        assert(key_value(197, 1) == 0x57f7d6c437a49cd4u64);
    } else if i == 198 && c == 0 {
        assert(key_value(198, 0) == 0xd752fabaa920bd45u64);
    } else if i == 198 && c == 1 {
        assert(key_value(198, 1) == 0xe6cede169dcf8022u64);
    } else if i == 199 && c == 0 {
        assert(key_value(199, 0) == 0xeae9a40d59d463fbu64);
    } else if i == 199 && c == 1 {
        assert(key_value(199, 1) == 0xc9f09b54dd061820u64);
    }
}

proof fn lemma_block_40(i: int, c: int)
    requires
        200 <= i < 205,
        0 <= c < 2,
        lcg_key(400) == 0xc9f09b54dd061820u64,
    ensures
        key_value(i, c) == lcg_key((2 * i + c + 1) as nat),
{
    crate::engine::key_chain::lemma_steps_40();
    if i == 200 && c == 0 {
        assert(key_value(200, 0) == 0xc18d98e66aaa1da1u64);
    } else if i == 200 && c == 1 {
        assert(key_value(200, 1) == 0x469a6e872f4f144eu64);
    } else if i == 201 && c == 0 {
        assert(key_value(201, 0) == 0x69a36aff855f43b7u64);
    } else if i == 201 && c == 1 {
        assert(key_value(201, 1) == 0x594fcdcc71d9b02cu64);
    } else if i == 202 && c == 0 {
        assert(key_value(202, 0) == 0x210465279b45cbbdu64);
    } else if i == 202 && c == 1 {
        assert(key_value(202, 1) == 0xde5c7a529c58933au64);
    } else if i == 203 && c == 0 {
        assert(key_value(203, 0) == 0x1caef08a555da733u64);
    } else if i == 203 && c == 1 {
        assert(key_value(203, 1) == 0x99e665c6ec17b0f8u64);
    } else if i == 204 && c == 0 {
        assert(key_value(204, 0) == 0xf82a8102e14d2399u64);
    } else if i == 204 && c == 1 {
        assert(key_value(204, 1) == 0xa2ef39a3034528e6u64);
    }
}

proof fn lemma_block_41(i: int, c: int)
    requires
        205 <= i < 210,
        0 <= c < 2,
        lcg_key(410) == 0xa2ef39a3034528e6u64,
    ensures
        key_value(i, c) == lcg_key((2 * i + c + 1) as nat),
{
    crate::engine::key_chain::lemma_steps_41();
    if i == 205 && c == 0 {
        assert(key_value(205, 0) == 0xc167d819f8504a6fu64);
    } else if i == 205 && c == 1 {
        assert(key_value(205, 1) == 0xe2791d17c1a52684u64);
    } else if i == 206 && c == 0 {
        assert(key_value(206, 0) == 0xe38b380092f74135u64);
    } else if i == 206 && c == 1 {
        assert(key_value(206, 1) == 0x2d9a0c982ea8c152u64);
    } else if i == 207 && c == 0 {
        assert(key_value(207, 0) == 0x599f1aecc84ba96bu64);
    } else if i == 207 && c == 1 {
        assert(key_value(207, 1) == 0x5c3c01211d9fdcd0u64);
    } else if i == 208 && c == 0 {
        assert(key_value(208, 0) == 0x698d64adc8b50091u64);
    } else if i == 208 && c == 1 {
        assert(key_value(208, 1) == 0xb5c4c41f737e087eu64);
    } else if i == 209 && c == 0 {
        assert(key_value(209, 0) == 0x7a974cd92cb40027u64);
    } else if i == 209 && c == 1 {
        assert(key_value(209, 1) == 0xaf84e704d26a5fdcu64);
    }
}

proof fn lemma_block_42(i: int, c: int)
    requires
        210 <= i < 215,
        0 <= c < 2,
        lcg_key(420) == 0xaf84e704d26a5fdcu64,
    ensures
        key_value(i, c) == lcg_key((2 * i + c + 1) as nat),
{
    crate::engine::key_chain::lemma_steps_42();
    if i == 210 && c == 0 {
        assert(key_value(210, 0) == 0x01ea9646dd4cfdadu64);
    } else if i == 210 && c == 1 {
        assert(key_value(210, 1) == 0x3bc9b6c61a126a6au64);
    } else if i == 211 && c == 0 {
        assert(key_value(211, 0) == 0x035fc8b31fb94aa3u64);
    } else if i == 211 && c == 1 {
        assert(key_value(211, 1) == 0xee5c17e15477fba8u64);
    } else if i == 212 && c == 0 {
        assert(key_value(212, 0) == 0xf65e2096b7b79489u64);
    } else if i == 212 && c == 1 {
        assert(key_value(212, 1) == 0x132a9da97db21316u64);
    } else if i == 213 && c == 0 {
        assert(key_value(213, 0) == 0x04202554139344dfu64);
    } else if i == 213 && c == 1 {
        assert(key_value(213, 1) == 0x9d0109d9c9d8bc34u64);
    } else if i == 214 && c == 0 {
        assert(key_value(214, 0) == 0xfbaf3e93fabae125u64);
    } else if i == 214 && c == 1 {
        assert(key_value(214, 1) == 0xae8faa82cf13ee82u64);
    }
}

proof fn lemma_block_43(i: int, c: int)
    requires
        215 <= i < 220,
        0 <= c < 2,
        lcg_key(430) == 0xae8faa82cf13ee82u64,
    ensures
        key_value(i, c) == lcg_key((2 * i + c + 1) as nat),
{
    crate::engine::key_chain::lemma_steps_43();
    if i == 215 && c == 0 {
        assert(key_value(215, 0) == 0x956b23fbb37d6adbu64);
    } else if i == 215 && c == 1 {
        assert(key_value(215, 1) == 0x43a76980fa856d80u64);
    } else if i == 216 && c == 0 {
        assert(key_value(216, 0) == 0x7f88339ef646bf81u64);
    } else if i == 216 && c == 1 {
        assert(key_value(216, 1) == 0xe1f6e4d32585a8aeu64);
    } else if i == 217 && c == 0 {
        assert(key_value(217, 0) == 0x3e45fc2fbc72f897u64);
    } else if i == 217 && c == 1 {
        assert(key_value(217, 1) == 0xe3107223ad6b9b8cu64);
    } else if i == 218 && c == 0 {
        assert(key_value(218, 0) == 0x7c3b6cb8f690cb9du64);
    } else if i == 218 && c == 1 {
        assert(key_value(218, 1) == 0x406ecc274ad7ad9au64);
    } else if i == 219 && c == 0 {
        assert(key_value(219, 0) == 0x5ef2442ce9aaea13u64);
    } else if i == 219 && c == 1 {
        assert(key_value(219, 1) == 0x7613431fbe399258u64);
    }
}

proof fn lemma_block_44(i: int, c: int)
    requires
        220 <= i < 225,
        0 <= c < 2,
        lcg_key(440) == 0x7613431fbe399258u64,
    ensures
        key_value(i, c) == lcg_key((2 * i + c + 1) as nat),
{
    crate::engine::key_chain::lemma_steps_44();
    if i == 220 && c == 0 {
        assert(key_value(220, 0) == 0xab14f45f4cf06179u64);
    } else if i == 220 && c == 1 {
        assert(key_value(220, 1) == 0x10aad7096e092946u64);
    } else if i == 221 && c == 0 {
        assert(key_value(221, 0) == 0xd5f63722b0d3fb4fu64);
    } else if i == 221 && c == 1 {
        assert(key_value(221, 1) == 0xf21b39b1f7ea5de4u64);
    } else if i == 222 && c == 0 {
        assert(key_value(222, 0) == 0x856b1ea22e7a9d15u64);
    } else if i == 222 && c == 1 {
        assert(key_value(222, 1) == 0x8722ec41a8b407b2u64);
    } else if i == 223 && c == 0 {
        assert(key_value(223, 0) == 0xf2f1bf974a10a84bu64);
    } else if i == 223 && c == 1 {
        assert(key_value(223, 1) == 0xfca5da2d8011ca30u64);
    } else if i == 224 && c == 0 {
        assert(key_value(224, 0) == 0x1feb0959445e5a71u64);
    } else if i == 224 && c == 1 {
        assert(key_value(224, 1) == 0x8fbf553d0338f4deu64);
    }
}

/// Every key of the table is the generator's value 2i + c + 1: the written
/// table and the one `Zobrist::table` computes are the same.
pub proof fn lemma_keys_generated()
    ensures
        forall|i: int, c: int| 0 <= i < 225 && 0 <= c < 2 ==> #[trigger] key_value(i, c) == lcg_key((2 * i + c + 1) as nat),
{
    crate::engine::key_chain::lemma_steps_all();
    assert forall|i: int, c: int| 0 <= i < 225 && 0 <= c < 2 implies #[trigger] key_value(i, c) == lcg_key((2 * i + c + 1) as nat) by {
        if i < 5 {
            lemma_block_0(i, c);
        } else if i < 10 {
            lemma_block_1(i, c);
        } else if i < 15 {
            lemma_block_2(i, c);
        } else if i < 20 {
            lemma_block_3(i, c);
        } else if i < 25 {
            lemma_block_4(i, c);
        } else if i < 30 {
            lemma_block_5(i, c);
        } else if i < 35 {
            lemma_block_6(i, c);
        } else if i < 40 {
            lemma_block_7(i, c);
        } else if i < 45 {
            lemma_block_8(i, c);
        } else if i < 50 {
            lemma_block_9(i, c);
        } else if i < 55 {
            lemma_block_10(i, c);
        } else if i < 60 {
            lemma_block_11(i, c);
        } else if i < 65 {
            lemma_block_12(i, c);
        } else if i < 70 {
            lemma_block_13(i, c);
        } else if i < 75 {
            lemma_block_14(i, c);
        } else if i < 80 {
            lemma_block_15(i, c);
        } else if i < 85 {
            lemma_block_16(i, c);
        } else if i < 90 {
            lemma_block_17(i, c);
        } else if i < 95 {
            lemma_block_18(i, c);
        } else if i < 100 {
            lemma_block_19(i, c);
        } else if i < 105 {
            lemma_block_20(i, c);
        } else if i < 110 {
            lemma_block_21(i, c);
        } else if i < 115 {
            lemma_block_22(i, c);
        } else if i < 120 {
            lemma_block_23(i, c);
        } else if i < 125 {
            lemma_block_24(i, c);
        } else if i < 130 {
            lemma_block_25(i, c);
        } else if i < 135 {
            lemma_block_26(i, c);
        } else if i < 140 {
            lemma_block_27(i, c);
        } else if i < 145 {
            lemma_block_28(i, c);
        } else if i < 150 {
            lemma_block_29(i, c);
        } else if i < 155 {
            lemma_block_30(i, c);
        } else if i < 160 {
            lemma_block_31(i, c);
        } else if i < 165 {
            lemma_block_32(i, c);
        } else if i < 170 {
            lemma_block_33(i, c);
        } else if i < 175 {
            lemma_block_34(i, c);
        } else if i < 180 {
            lemma_block_35(i, c);
        } else if i < 185 {
            lemma_block_36(i, c);
        } else if i < 190 {
            lemma_block_37(i, c);
        } else if i < 195 {
            lemma_block_38(i, c);
        } else if i < 200 {
            lemma_block_39(i, c);
        } else if i < 205 {
            lemma_block_40(i, c);
        } else if i < 210 {
            lemma_block_41(i, c);
        } else if i < 215 {
            lemma_block_42(i, c);
        } else if i < 220 {
            lemma_block_43(i, c);
        } else if i < 225 {
            lemma_block_44(i, c);
        }
    }
}

} // verus!
